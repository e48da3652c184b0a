//! The rank step of the Iman–Conover (1982) transform: a column of
//! scores is turned into ordinal ranks, and the sorted input column is
//! laid out in that rank pattern. The output column therefore holds
//! exactly the input values, rearranged.
//!
//! Sorting the floating-point scores and inputs is done by the caller;
//! it hands over the order in which the scores sort.

use vstd::prelude::*;

use crate::permutation::is_permutation;

verus! {

/// Shape errors of the transform's inputs.
#[derive(Debug, Clone, Copy, PartialEq, Eq, Structural)]
#[non_exhaustive]
pub enum ImanConoverShapeError {
    /// The sample has no rows.
    EmptyInput,
    /// The sample has no columns.
    ZeroD,
    /// The target correlation matrix is not `d × d`.
    NonSquareTarget { d: usize, rows: usize, cols: usize },
}

/// Which shapes the transform refuses, in the order it checks them: an
/// `n × d` sample and a `rows × cols` target.
pub open spec fn shape_check(n: usize, d: usize, rows: usize, cols: usize) -> Result<(), ImanConoverShapeError> {
    if n == 0 {
        Err(ImanConoverShapeError::EmptyInput)
    } else if d == 0 {
        Err(ImanConoverShapeError::ZeroD)
    } else if rows != d || cols != d {
        Err(ImanConoverShapeError::NonSquareTarget { d, rows, cols })
    } else {
        Ok(())
    }
}

/// Checks the shapes of the transform's inputs.
pub fn check_iman_conover_shape(n: usize, d: usize, rows: usize, cols: usize) -> (res: Result<
    (),
    ImanConoverShapeError,
>)
    ensures
        res == shape_check(n, d, rows, cols),
{
    if n == 0 {
        return Err(ImanConoverShapeError::EmptyInput);
    }
    if d == 0 {
        return Err(ImanConoverShapeError::ZeroD);
    }
    if rows != d || cols != d {
        return Err(ImanConoverShapeError::NonSquareTarget { d, rows, cols });
    }
    Ok(())
}

/// `out` is `src` rearranged: some permutation `p` of the positions has
/// `out[i] == src[p[i]]`.
pub open spec fn is_rearrangement<T>(out: Seq<T>, src: Seq<T>) -> bool {
    &&& out.len() == src.len()
    &&& exists|p: Seq<usize>|
        is_permutation(p, src.len()) && forall|i: int| 0 <= i < out.len() ==> out[i] == src[#[trigger] p[i] as int]
}

/// Ordinal ranks from a sort order: the item at sorted position `k` gets
/// rank `k + 1`.
pub fn ranks_from_order(order: &Vec<usize>) -> (ranks: Vec<usize>)
    requires
        is_permutation(order@, order@.len()),
    ensures
        ranks@.len() == order@.len(),
        forall|k: int| 0 <= k < order@.len() ==> ranks@[#[trigger] order@[k] as int] == k + 1,
        forall|i: int| 0 <= i < ranks@.len() ==> 1 <= #[trigger] ranks@[i] <= ranks@.len(),
        is_permutation(Seq::new(ranks@.len(), |i: int| (ranks@[i] - 1) as usize), ranks@.len()),
{
    let n = order.len();
    let mut ranks: Vec<usize> = Vec::new();
    let mut i: usize = 0;
    while i < n
        invariant
            i <= n,
            ranks@.len() == i,
            forall|q: int| 0 <= q < i ==> #[trigger] ranks@[q] == 0,
        decreases n - i,
    {
        ranks.push(0);
        i = i + 1;
    }
    let mut k: usize = 0;
    while k < n
        invariant
            k <= n,
            n == order@.len(),
            is_permutation(order@, n as nat),
            ranks@.len() == n,
            forall|q: int| 0 <= q < k ==> ranks@[#[trigger] order@[q] as int] == q + 1,
            forall|q: int| k <= q < n ==> ranks@[#[trigger] order@[q] as int] == 0,
        decreases n - k,
    {
        let pos = order[k];
        ranks.set(pos, k + 1);
        proof {
            assert forall|q: int| 0 <= q < n && q != k implies #[trigger] order@[q] != order@[k as int] by {
                if q < k {
                    assert(order@[q] != order@[k as int]);
                } else {
                    assert(order@[k as int] != order@[q]);
                }
            }
        }
        k = k + 1;
    }
    proof {
        let inv = Seq::new(n as nat, |i: int| (ranks@[i] - 1) as usize);
        assert forall|i: int| 0 <= i < n implies 1 <= #[trigger] ranks@[i] <= n && inv[i] < n by {
            assert(order@.contains(i as usize));
            let q = choose|q: int| 0 <= q < n && order@[q] == i as usize;
        }
        assert forall|a: int, b: int| 0 <= a < b < n implies inv[a] != inv[b] by {
            assert(order@.contains(a as usize));
            assert(order@.contains(b as usize));
            let qa = choose|q: int| 0 <= q < n && order@[q] == a as usize;
            let qb = choose|q: int| 0 <= q < n && order@[q] == b as usize;
        }
        assert forall|v: usize| v < n implies #[trigger] inv.contains(v) by {
            assert(inv[order@[v as int] as int] == v);
        }
    }
    ranks
}

/// Lays `sorted` out in the pattern of `ranks`: position `i` receives the
/// value of rank `ranks[i]`.
pub fn arrange_by_ranks<T: Copy>(sorted: &Vec<T>, ranks: &Vec<usize>) -> (out: Vec<T>)
    requires
        ranks@.len() == sorted@.len(),
        forall|i: int| 0 <= i < ranks@.len() ==> 1 <= #[trigger] ranks@[i] <= sorted@.len(),
    ensures
        out@.len() == sorted@.len(),
        forall|i: int| 0 <= i < out@.len() ==> out@[i] == sorted@[ranks@[i] - 1],
{
    let n = ranks.len();
    let mut out: Vec<T> = Vec::new();
    let mut i: usize = 0;
    while i < n
        invariant
            i <= n,
            n == ranks@.len(),
            ranks@.len() == sorted@.len(),
            forall|q: int| 0 <= q < ranks@.len() ==> 1 <= #[trigger] ranks@[q] <= sorted@.len(),
            out@.len() == i,
            forall|q: int| 0 <= q < i ==> out@[q] == sorted@[ranks@[q] - 1],
        decreases n - i,
    {
        let r = ranks[i];
        out.push(sorted[r - 1]);
        i = i + 1;
    }
    out
}

/// Laying a column out by ranks that come from a sort order only
/// rearranges it: the output column holds the input values, each as often
/// as the input does.
pub proof fn law_arrangement_is_rearrangement<T>(out: Seq<T>, sorted: Seq<T>, ranks: Seq<usize>)
    requires
        ranks.len() == sorted.len(),
        out.len() == sorted.len(),
        is_permutation(Seq::new(ranks.len(), |i: int| (ranks[i] - 1) as usize), ranks.len()),
        forall|i: int| 0 <= i < ranks.len() ==> 1 <= #[trigger] ranks[i] <= sorted.len(),
        forall|i: int| 0 <= i < out.len() ==> out[i] == sorted[ranks[i] - 1],
    ensures
        is_rearrangement(out, sorted),
{
    let p = Seq::new(ranks.len(), |i: int| (ranks[i] - 1) as usize);
    assert forall|i: int| 0 <= i < out.len() implies out[i] == sorted[#[trigger] p[i] as int] by {
        assert(p[i] as int == ranks[i] - 1);
    }
}

} // verus!
