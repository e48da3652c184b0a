//! The Owen (2013) design for total-effect and closed-index estimation:
//! a `3d`-column base sample is cut into `A`, `B` and `C`; `A_C^(i)` is
//! `A` with column `i` taken from `C`, and `B_A^(i)` is `B` with column
//! `i` taken from `A`.

use vstd::prelude::*;

use crate::design_blocks::{column_block, is_matrix, rows_of, swap_column, take_columns, with_column_from};

verus! {

/// The Owen matrices of one design.
#[derive(Debug, Clone)]
#[non_exhaustive]
pub struct OwenMatrix<T> {
    /// Rows per matrix.
    pub n: usize,
    /// Factor count `d` (a third of the base sample's width).
    pub dim: usize,
    /// `A`: columns `0..d` of the base sample.
    pub a: Vec<Vec<T>>,
    /// `B`: columns `d..2d`.
    pub b: Vec<Vec<T>>,
    /// `C`: columns `2d..3d`.
    pub c: Vec<Vec<T>>,
    /// `A_C^(i)` for `i = 0..d`.
    pub a_c: Vec<Vec<Vec<T>>>,
    /// `B_A^(i)` for `i = 0..d`.
    pub b_a: Vec<Vec<Vec<T>>>,
}

/// Errors from [`build_owen_matrix`].
#[derive(Debug, Clone, Copy, PartialEq, Eq, Structural)]
#[non_exhaustive]
pub enum OwenMatrixError {
    /// `n` was 0.
    ZeroN,
    /// The base sample's width is not a multiple of 3.
    NotDivisibleByThree { dim: usize },
}

/// Which inputs are refused.
pub open spec fn owen_check(n: usize, total_dim: usize) -> Result<usize, OwenMatrixError> {
    if n == 0 {
        Err(OwenMatrixError::ZeroN)
    } else if total_dim % 3 != 0 {
        Err(OwenMatrixError::NotDivisibleByThree { dim: total_dim })
    } else {
        Ok((total_dim / 3) as usize)
    }
}

/// Checks the design's arguments: `n` rows and a base sample of
/// `total_dim` columns; returns the factor count `d = total_dim / 3`.
pub fn check_owen(n: usize, total_dim: usize) -> (res: Result<usize, OwenMatrixError>)
    ensures
        res == owen_check(n, total_dim),
{
    if n == 0 {
        return Err(OwenMatrixError::ZeroN);
    }
    if total_dim % 3 != 0 {
        return Err(OwenMatrixError::NotDivisibleByThree { dim: total_dim });
    }
    Ok(total_dim / 3)
}

impl<T> OwenMatrix<T> {
    /// Number of model evaluations the design asks for: `n(3 + 2d)`.
    pub fn total_evaluations(&self) -> (total: usize)
        requires
            3 + 2 * self.dim <= usize::MAX,
            self.n * (3 + 2 * self.dim) <= usize::MAX,
        ensures
            total == self.n * (3 + 2 * self.dim),
    {
        self.n * (3 + 2 * self.dim)
    }
}

/// Builds the Owen matrices from a base sample of `n` rows and `total_dim`
/// columns.
pub fn build_owen_matrix<T: Copy>(base_sample: &Vec<Vec<T>>, n: usize, total_dim: usize) -> (res: Result<
    OwenMatrix<T>,
    OwenMatrixError,
>)
    requires
        owen_check(n, total_dim) is Ok ==> is_matrix(rows_of(base_sample@), n as nat, total_dim as nat),
    ensures
        res is Err <==> owen_check(n, total_dim) is Err,
        res matches Err(e) ==> owen_check(n, total_dim) == Err::<usize, OwenMatrixError>(e),
        res matches Ok(m) ==> {
            let d = (total_dim / 3) as nat;
            let base = rows_of(base_sample@);
            &&& m.n == n && m.dim == d
            &&& rows_of(m.a@) == column_block(base, 0, d)
            &&& rows_of(m.b@) == column_block(base, d as int, d)
            &&& rows_of(m.c@) == column_block(base, 2 * d as int, d)
            &&& m.a_c@.len() == d && m.b_a@.len() == d
            &&& forall|i: int|
                0 <= i < d ==> rows_of((#[trigger] m.a_c@[i])@) == swap_column(rows_of(m.a@), rows_of(m.c@), i)
            &&& forall|i: int|
                0 <= i < d ==> rows_of((#[trigger] m.b_a@[i])@) == swap_column(rows_of(m.b@), rows_of(m.a@), i)
        },
{
    let d = check_owen(n, total_dim)?;
    let ghost base = rows_of(base_sample@);
    proof {
        assert forall|r: int| 0 <= r < base_sample@.len() implies 2 * d + d <= (#[trigger] base_sample@[r])@.len() by {
            assert(base[r] == base_sample@[r]@);
        }
    }
    let a = take_columns(base_sample, 0, d);
    let b = take_columns(base_sample, d, d);
    let c = take_columns(base_sample, 2 * d, d);
    proof {
        lemma_block_rows(base, a@, 0, d as nat);
        lemma_block_rows(base, b@, d as int, d as nat);
        lemma_block_rows(base, c@, 2 * d, d as nat);
    }
    let a_c = crate::saltelli_matrix::radial_family(&a, &c, d);
    let b_a = crate::saltelli_matrix::radial_family(&b, &a, d);
    Ok(OwenMatrix { n, dim: d, a, b, c, a_c, b_a })
}

/// A block cut out of a matrix has its rows and rows of the block's width.
proof fn lemma_block_rows<T>(base: Seq<Seq<T>>, m: Seq<Vec<T>>, from: int, width: nat)
    requires
        rows_of(m) == column_block(base, from, width),
        0 <= from,
        forall|r: int| 0 <= r < base.len() ==> from + width <= (#[trigger] base[r]).len(),
    ensures
        m.len() == base.len(),
        forall|r: int| 0 <= r < m.len() ==> (#[trigger] m[r])@.len() == width,
{
    assert(rows_of(m).len() == m.len());
    assert forall|r: int| 0 <= r < m.len() implies (#[trigger] m[r])@.len() == width by {
        assert(rows_of(m)[r] == m[r]@);
        assert(column_block(base, from, width)[r] == base[r].subrange(from, from + width));
    }
}

} // verus!
