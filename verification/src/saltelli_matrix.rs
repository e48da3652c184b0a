//! The Saltelli radial design: a `2d`-column base sample is cut into the
//! matrices `A` (columns `0..d`) and `B` (columns `d..2d`); `A_B^(i)` is
//! `A` with column `i` taken from `B`, and for second-order indices
//! `B_A^(i)` is `B` with column `i` taken from `A`.
//!
//! The base sample is drawn by a sampler beforehand; the cells are of any
//! copyable type.

use vstd::prelude::*;

use crate::design_blocks::{column_block, is_matrix, rows_of, swap_column, take_columns, with_column_from};

verus! {

/// The Saltelli matrices of one design.
#[derive(Debug, Clone)]
#[non_exhaustive]
pub struct SaltelliMatrix<T> {
    /// Rows per matrix.
    pub n: usize,
    /// Factor count `d` (half the base sample's width).
    pub dim: usize,
    /// `A`: the first `d` columns of the base sample.
    pub a: Vec<Vec<T>>,
    /// `B`: the last `d` columns of the base sample.
    pub b: Vec<Vec<T>>,
    /// `A_B^(i)` for `i = 0..d`.
    pub a_b: Vec<Vec<Vec<T>>>,
    /// `B_A^(i)` for `i = 0..d`, present for second-order designs.
    pub b_a: Option<Vec<Vec<Vec<T>>>>,
}

/// Errors from [`build_saltelli_matrix`].
#[derive(Debug, Clone, Copy, PartialEq, Eq, Structural)]
#[non_exhaustive]
pub enum SaltelliError {
    /// `n` was 0.
    ZeroN,
    /// The base sample has an odd number of columns.
    OddBaseDim { dim: usize },
}

/// Model evaluations a design needs: `n(d + 2)`, plus `n·d` for the
/// second-order matrices.
pub open spec fn saltelli_evaluations(n: nat, d: nat, second_order: bool) -> nat {
    n * (d + 2) + if second_order {
        n * d
    } else {
        0
    }
}

/// Which inputs are refused, and the factor count `d` of the others.
pub open spec fn saltelli_check(n: usize, base_dim: usize) -> Result<usize, SaltelliError> {
    if n == 0 {
        Err(SaltelliError::ZeroN)
    } else if base_dim % 2 != 0 {
        Err(SaltelliError::OddBaseDim { dim: base_dim })
    } else {
        Ok((base_dim / 2) as usize)
    }
}

/// Checks the design's arguments: `n` rows and a base sample of
/// `base_dim` columns; returns the factor count `d = base_dim / 2`.
pub fn check_saltelli(n: usize, base_dim: usize) -> (res: Result<usize, SaltelliError>)
    ensures
        res == saltelli_check(n, base_dim),
{
    if n == 0 {
        return Err(SaltelliError::ZeroN);
    }
    if base_dim % 2 != 0 {
        return Err(SaltelliError::OddBaseDim { dim: base_dim });
    }
    Ok(base_dim / 2)
}

impl<T> SaltelliMatrix<T> {
    /// Number of model evaluations the design asks for.
    pub fn total_evaluations(&self) -> (total: usize)
        requires
            self.dim + 2 <= usize::MAX,
            saltelli_evaluations(self.n as nat, self.dim as nat, self.b_a is Some) <= usize::MAX,
        ensures
            total == saltelli_evaluations(self.n as nat, self.dim as nat, self.b_a is Some),
    {
        proof {
            let n = self.n as nat;
            let d = self.dim as nat;
            assert(n * (d + 2) <= saltelli_evaluations(n, d, self.b_a is Some));
            assert(n * d <= n * (d + 2)) by (nonlinear_arith);
        }
        let base = self.n * (self.dim + 2);
        if self.b_a.is_some() {
            base + self.n * self.dim
        } else {
            base
        }
    }
}

/// The matrices `m` with column `i` replaced by column `i` of `src`, for
/// `i = 0..d`.
pub(crate) fn radial_family<T: Copy>(m: &Vec<Vec<T>>, src: &Vec<Vec<T>>, d: usize) -> (out: Vec<Vec<Vec<T>>>)
    requires
        src@.len() == m@.len(),
        forall|r: int| 0 <= r < m@.len() ==> (#[trigger] m@[r])@.len() == d,
        forall|r: int| 0 <= r < src@.len() ==> (#[trigger] src@[r])@.len() == d,
    ensures
        out@.len() == d,
        forall|i: int|
            0 <= i < d ==> rows_of((#[trigger] out@[i])@) == swap_column(rows_of(m@), rows_of(src@), i),
{
    let mut out: Vec<Vec<Vec<T>>> = Vec::new();
    let mut i: usize = 0;
    while i < d
        invariant
            i <= d,
            src@.len() == m@.len(),
            forall|r: int| 0 <= r < m@.len() ==> (#[trigger] m@[r])@.len() == d,
            forall|r: int| 0 <= r < src@.len() ==> (#[trigger] src@[r])@.len() == d,
            out@.len() == i,
            forall|q: int|
                0 <= q < i ==> rows_of((#[trigger] out@[q])@) == swap_column(rows_of(m@), rows_of(src@), q),
        decreases d - i,
    {
        out.push(with_column_from(m, src, i));
        i = i + 1;
    }
    out
}

/// Builds the Saltelli matrices from a base sample of `n` rows and
/// `base_dim` columns.
pub fn build_saltelli_matrix<T: Copy>(
    base_sample: &Vec<Vec<T>>,
    n: usize,
    base_dim: usize,
    second_order: bool,
) -> (res: Result<SaltelliMatrix<T>, SaltelliError>)
    requires
        saltelli_check(n, base_dim) is Ok ==> is_matrix(rows_of(base_sample@), n as nat, base_dim as nat),
    ensures
        res is Err <==> saltelli_check(n, base_dim) is Err,
        res matches Err(e) ==> saltelli_check(n, base_dim) == Err::<usize, SaltelliError>(e),
        res matches Ok(m) ==> {
            let d = (base_dim / 2) as nat;
            let base = rows_of(base_sample@);
            &&& m.n == n && m.dim == d
            &&& rows_of(m.a@) == column_block(base, 0, d)
            &&& rows_of(m.b@) == column_block(base, d as int, d)
            &&& m.a_b@.len() == d
            &&& forall|i: int|
                0 <= i < d ==> rows_of((#[trigger] m.a_b@[i])@) == swap_column(rows_of(m.a@), rows_of(m.b@), i)
            &&& (m.b_a is Some <==> second_order)
            &&& m.b_a matches Some(ba) ==> ba@.len() == d && forall|i: int|
                0 <= i < d ==> rows_of((#[trigger] ba@[i])@) == swap_column(rows_of(m.b@), rows_of(m.a@), i)
        },
{
    let d = check_saltelli(n, base_dim)?;
    proof {
        assert forall|r: int| 0 <= r < base_sample@.len() implies 0 + d <= (#[trigger] base_sample@[r])@.len()
            && d + d <= base_sample@[r]@.len() by {
            assert(rows_of(base_sample@)[r] == base_sample@[r]@);
        }
    }
    let a = take_columns(base_sample, 0, d);
    let b = take_columns(base_sample, d, d);
    proof {
        let base = rows_of(base_sample@);
        assert(base.len() == base_sample@.len());
        assert(rows_of(a@).len() == a@.len());
        assert(column_block(base, 0, d as nat).len() == base.len());
        assert(a@.len() == base.len());
        assert(rows_of(b@).len() == b@.len());
        assert(column_block(base, d as int, d as nat).len() == base.len());
        assert(b@.len() == base.len());
        assert forall|r: int| 0 <= r < a@.len() implies (#[trigger] a@[r])@.len() == d by {
            assert(rows_of(a@)[r] == a@[r]@);
            assert(column_block(base, 0, d as nat)[r] == base[r].subrange(0, d as int));
            assert(base[r].len() == base_dim);
        }
        assert forall|r: int| 0 <= r < b@.len() implies (#[trigger] b@[r])@.len() == d by {
            assert(rows_of(b@)[r] == b@[r]@);
            assert(column_block(base, d as int, d as nat)[r] == base[r].subrange(d as int, d + d));
            assert(base[r].len() == base_dim);
        }
        assert(rows_of(a@).len() == a@.len());
        assert(rows_of(b@).len() == b@.len());
    }
    let a_b = radial_family(&a, &b, d);
    let b_a = if second_order {
        Some(radial_family(&b, &a, d))
    } else {
        None
    };
    Ok(SaltelliMatrix { n, dim: d, a, b, a_b, b_a })
}

} // verus!
