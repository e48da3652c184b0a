//! Latin hypercube sampling (McKay–Beckman–Conover 1979), integer part.
//!
//! For each column `j` the sampler shuffles `0..n` (Fisher–Yates, `n − 1`
//! draws); row `i` of the column lies in stratification cell
//! `[perm[i] / n, (perm[i] + 1) / n)`. The classic variant then draws one
//! word per row, the offset `u = word / 2³²` inside the cell; the
//! centered variant uses the cell centre and draws nothing more. The unit
//! value is `(perm[i] + u) / n`, or `(perm[i] + 0.5) / n` when centered.

use vstd::prelude::*;

use crate::permutation::{
    fisher_yates, is_permutation, keystream, random_permutation, shuffle_cost,
};
use crate::rng::RngState;

verus! {

/// LHS variant.
#[derive(Debug, Clone, Copy, PartialEq, Eq, Structural)]
#[non_exhaustive]
pub enum LhsKind {
    /// Random offset within each stratification cell.
    Classic,
    /// Cell centre.
    Centered,
}

/// Latin hypercube sampler over `dim` columns.
#[derive(Debug, Clone, Copy, PartialEq, Eq, Structural)]
#[non_exhaustive]
pub struct LhsSampler {
    /// Number of factors (output columns).
    pub dim: usize,
    /// LHS variant.
    pub kind: LhsKind,
}

/// The stratification of an `n`-row Latin hypercube: per column, the cell
/// of each row and (classic only) the raw offset word of each row.
#[derive(Debug, Clone)]
pub struct LhsStrata {
    /// Row count.
    pub n: usize,
    /// `cells[j][i]` is the stratification cell of row `i` in column `j`.
    pub cells: Vec<Vec<usize>>,
    /// `offsets[j][i]` is the offset word of row `i` in column `j`
    /// (classic); empty columns for the centered variant.
    pub offsets: Vec<Vec<u32>>,
}

/// Words drawn per column: the shuffle, then one offset per row when
/// classic.
pub open spec fn column_cost(kind: LhsKind, n: nat) -> nat {
    shuffle_cost(n) + if kind == LhsKind::Classic {
        n
    } else {
        0
    }
}

impl LhsSampler {
    /// Classic LHS: random offset within each stratification cell.
    pub fn classic(dim: usize) -> (s: Self)
        ensures
            s.dim == dim,
            s.kind == LhsKind::Classic,
    {
        LhsSampler { dim, kind: LhsKind::Classic }
    }

    /// Centered LHS: cell-centre values.
    pub fn centered(dim: usize) -> (s: Self)
        ensures
            s.dim == dim,
            s.kind == LhsKind::Centered,
    {
        LhsSampler { dim, kind: LhsKind::Centered }
    }

    /// Sampler with an explicit variant.
    pub fn with_kind(dim: usize, kind: LhsKind) -> (s: Self)
        ensures
            s.dim == dim,
            s.kind == kind,
    {
        LhsSampler { dim, kind }
    }

    /// LHS variant.
    pub fn kind(&self) -> (k: LhsKind)
        ensures
            k == self.kind,
    {
        self.kind
    }

    /// Number of factors.
    pub fn dim(&self) -> (d: usize)
        ensures
            d == self.dim,
    {
        self.dim
    }

    /// Draws the stratification of an `n`-row design. Column `j` reads the
    /// keystream words `start + j·c, …, start + (j + 1)·c − 1`, `c` being
    /// the per-column cost: first its shuffle, then its offsets.
    pub fn strata(&self, n: usize, rng: &mut RngState) -> (r: LhsStrata)
        requires
            old(rng).word_pos + self.dim * column_cost(self.kind, n as nat) <= u128::MAX,
        ensures
            r.n == n,
            r.cells@.len() == self.dim,
            r.offsets@.len() == self.dim,
            forall|j: int|
                0 <= j < self.dim ==> (#[trigger] r.cells@[j])@ == fisher_yates(
                    n as nat,
                    keystream(
                        old(rng).seed@,
                        old(rng).stream,
                        old(rng).word_pos + j * column_cost(self.kind, n as nat),
                        shuffle_cost(n as nat),
                    ),
                ),
            forall|j: int|
                0 <= j < self.dim ==> (#[trigger] r.offsets@[j])@ == if self.kind
                    == LhsKind::Classic {
                    keystream(
                        old(rng).seed@,
                        old(rng).stream,
                        old(rng).word_pos + j * column_cost(self.kind, n as nat) + shuffle_cost(
                            n as nat,
                        ),
                        n as nat,
                    )
                } else {
                    Seq::<u32>::empty()
                },
            forall|j: int| 0 <= j < self.dim ==> is_permutation((#[trigger] r.cells@[j])@, n as nat),
            final(rng).seed == old(rng).seed,
            final(rng).stream == old(rng).stream,
            final(rng).word_pos == old(rng).word_pos + self.dim * column_cost(self.kind, n as nat),
    {
        let ghost start = rng.word_pos as int;
        let ghost cost = column_cost(self.kind, n as nat);
        let ghost seed = rng.seed@;
        let ghost stream = rng.stream;
        let mut cells: Vec<Vec<usize>> = Vec::new();
        let mut offsets: Vec<Vec<u32>> = Vec::new();
        let mut j: usize = 0;
        while j < self.dim
            invariant
                j <= self.dim,
                cost == column_cost(self.kind, n as nat),
                start + self.dim * cost <= u128::MAX,
                rng.seed@ == seed,
                rng.stream == stream,
                rng.word_pos == start + j * cost,
                cells@.len() == j,
                offsets@.len() == j,
                forall|c: int|
                    0 <= c < j ==> (#[trigger] cells@[c])@ == fisher_yates(
                        n as nat,
                        keystream(seed, stream, start + c * cost, shuffle_cost(n as nat)),
                    ) && is_permutation(cells@[c]@, n as nat),
                forall|c: int|
                    0 <= c < j ==> (#[trigger] offsets@[c])@ == if self.kind == LhsKind::Classic {
                        keystream(seed, stream, start + c * cost + shuffle_cost(n as nat), n as nat)
                    } else {
                        Seq::<u32>::empty()
                    },
            decreases self.dim - j,
        {
            proof {
                assert((j + 1) * cost <= self.dim * cost) by (nonlinear_arith)
                    requires
                        j + 1 <= self.dim,
                ;
                assert((j + 1) * cost == j * cost + cost) by (nonlinear_arith);
            }
            let perm = random_permutation(n, rng);
            let mut offs: Vec<u32> = Vec::new();
            match self.kind {
                LhsKind::Classic => {
                    let mut i: usize = 0;
                    while i < n
                        invariant
                            i <= n,
                            self.kind == LhsKind::Classic,
                            cost == shuffle_cost(n as nat) + n,
                            rng.seed@ == seed,
                            rng.stream == stream,
                            rng.word_pos == start + j * cost + shuffle_cost(n as nat) + i,
                            start + (j + 1) * cost <= u128::MAX,
                            (j + 1) * cost == j * cost + cost,
                            offs@ == keystream(
                                seed,
                                stream,
                                start + j * cost + shuffle_cost(n as nat),
                                i as nat,
                            ),
                        decreases n - i,
                    {
                        let w = rng.next_u32();
                        offs.push(w);
                        assert(offs@ =~= keystream(
                            seed,
                            stream,
                            start + j * cost + shuffle_cost(n as nat),
                            (i + 1) as nat,
                        ));
                        i = i + 1;
                    }
                },
                LhsKind::Centered => {},
            }
            cells.push(perm);
            offsets.push(offs);
            j = j + 1;
        }
        LhsStrata { n, cells, offsets }
    }
}

} // verus!
