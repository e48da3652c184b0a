//! Multi-indices `α ∈ ℕ^d` and the total-degree truncated basis
//! `{α : |α| = α₁ + … + α_d ≤ p}` of a polynomial chaos expansion.
//!
//! The basis is enumerated in lexicographic order (position 0 varies
//! slowest). Its cardinality is `C(d + p, d) = (d + p)! / (d! · p!)`.

use vstd::prelude::*;

use crate::combinatorics::{
    binomial, factorial, lemma_binomial_diagonal, lemma_binomial_factorial, lemma_binomial_monotone,
    lemma_binomial_step, lemma_binomial_symmetric,
};

verus! {

/// Sum of the entries of a sequence.
pub open spec fn seq_sum(s: Seq<usize>) -> nat
    decreases s.len(),
{
    if s.len() == 0 {
        0
    } else {
        s[0] as nat + seq_sum(s.drop_first())
    }
}

/// Number of non-zero entries.
pub open spec fn count_nonzero(s: Seq<usize>) -> nat
    decreases s.len(),
{
    if s.len() == 0 {
        0
    } else {
        (if s[0] > 0 {
            1nat
        } else {
            0nat
        }) + count_nonzero(s.drop_first())
    }
}

/// The all-zero vector of length `m`.
pub open spec fn zero_vector(m: nat) -> Seq<usize> {
    Seq::new(m, |i: int| 0usize)
}

/// All vectors of length `m` whose entries sum to at most `budget`, in
/// lexicographic order.
pub open spec fn bounded_vectors(m: nat, budget: nat) -> Seq<Seq<usize>>
    decreases m, 1nat, 0nat,
{
    if m == 0 {
        seq![Seq::<usize>::empty()]
    } else {
        lead_blocks(m, budget, 0)
    }
}

/// The vectors of `bounded_vectors(m, budget)` whose first entry is at
/// least `v`, in order: for each lead value `u = v, …, budget`, the
/// vectors `[u] + t` with `t` in `bounded_vectors(m - 1, budget - u)`.
pub open spec fn lead_blocks(m: nat, budget: nat, v: nat) -> Seq<Seq<usize>>
    decreases m, 0nat, budget + 1 - v,
    when m >= 1
{
    if v > budget {
        Seq::empty()
    } else {
        lead_block(m, budget, v) + lead_blocks(m, budget, v + 1)
    }
}

/// The vectors `[v] + t` for `t` in `bounded_vectors(m - 1, budget - v)`.
pub open spec fn lead_block(m: nat, budget: nat, v: nat) -> Seq<Seq<usize>>
    decreases m, 0nat, 0nat,
    when m >= 1 && v <= budget
{
    bounded_vectors((m - 1) as nat, (budget - v) as nat).map_values(
        |t: Seq<usize>| seq![v as usize] + t,
    )
}

/// Strict lexicographic order on sequences of equal length.
pub open spec fn lex_less(a: Seq<usize>, b: Seq<usize>) -> bool
    decreases a.len(),
{
    a.len() > 0 && b.len() > 0 && (a[0] < b[0] || (a[0] == b[0] && lex_less(
        a.drop_first(),
        b.drop_first(),
    )))
}

/// A multi-index `α ∈ ℕ^d`; `indices[i]` is the polynomial degree in
/// factor `i`'s univariate basis.
#[derive(Debug, Clone, PartialEq, Eq)]
pub struct MultiIndex {
    pub indices: Vec<usize>,
}

impl View for MultiIndex {
    type V = Seq<usize>;

    open spec fn view(&self) -> Seq<usize> {
        self.indices@
    }
}

/// The views of a sequence of multi-indices.
pub open spec fn index_views(s: Seq<MultiIndex>) -> Seq<Seq<usize>> {
    s.map_values(|mi: MultiIndex| mi@)
}

/// Errors from the basis enumerations.
#[derive(Debug, Clone, Copy, PartialEq, Eq, Structural)]
pub enum MultiIndexError {
    /// The factor count `d` was 0.
    ZeroD,
    /// The hyperbolic exponent `q` was outside `(0, 1]`; the rejected
    /// value is carried as its IEEE-754 bit pattern.
    InvalidHyperbolicQ { q_bits: u64 },
}

impl MultiIndex {
    /// A multi-index with the given per-factor degrees.
    pub fn new(indices: Vec<usize>) -> (r: Self)
        ensures
            r@ == indices@,
    {
        MultiIndex { indices }
    }

    /// Total degree `|α| = Σ αᵢ`.
    pub fn total_degree(&self) -> (r: usize)
        requires
            seq_sum(self@) <= usize::MAX,
        ensures
            r == seq_sum(self@),
    {
        let n = self.indices.len();
        let mut acc: usize = 0;
        let mut i: usize = n;
        // Sum from the back so the partial sums are suffix sums.
        while i > 0
            invariant
                n == self@.len(),
                i <= n,
                acc == seq_sum(self@.subrange(i as int, n as int)),
                seq_sum(self@) <= usize::MAX,
            decreases i,
        {
            let ghost suffix = self@.subrange(i as int - 1, n as int);
            assert(suffix.drop_first() =~= self@.subrange(i as int, n as int));
            proof {
                lemma_suffix_sum_bounded(self@, (i - 1) as nat);
            }
            i = i - 1;
            acc = acc + self.indices[i];
        }
        assert(self@.subrange(0, n as int) =~= self@);
        acc
    }

    /// Factor count `d`.
    pub fn dim(&self) -> (r: usize)
        ensures
            r == self@.len(),
    {
        self.indices.len()
    }

    /// `true` iff every degree is 0 (the constant term `Ψ₀ = 1`).
    pub fn is_zero(&self) -> (r: bool)
        ensures
            r == (forall|i: int| 0 <= i < self@.len() ==> self@[i] == 0),
    {
        let n = self.indices.len();
        let mut i: usize = 0;
        while i < n
            invariant
                n == self@.len(),
                i <= n,
                forall|k: int| 0 <= k < i ==> self@[k] == 0,
            decreases n - i,
        {
            if self.indices[i] != 0 {
                return false;
            }
            i = i + 1;
        }
        true
    }

    /// `true` iff exactly one degree is non-zero: the main effect of a
    /// single factor.
    pub fn is_main_effect(&self) -> (r: bool)
        ensures
            r == (count_nonzero(self@) == 1),
    {
        let n = self.indices.len();
        let mut count: usize = 0;
        let mut i: usize = n;
        while i > 0
            invariant
                n == self@.len(),
                i <= n,
                count == count_nonzero(self@.subrange(i as int, n as int)),
                count <= n - i,
            decreases i,
        {
            let ghost suffix = self@.subrange(i as int - 1, n as int);
            assert(suffix.drop_first() =~= self@.subrange(i as int, n as int));
            i = i - 1;
            if self.indices[i] > 0 {
                count = count + 1;
            }
        }
        assert(self@.subrange(0, n as int) =~= self@);
        count == 1
    }

    /// Active factors: the positions `i` with `αᵢ > 0`, in increasing
    /// order.
    pub fn active_factors(&self) -> (r: Vec<usize>)
        ensures
            forall|k: int| 0 <= k < r@.len() ==> r@[k] < self@.len() && self@[r@[k] as int] > 0,
            forall|k: int, l: int| 0 <= k < l < r@.len() ==> r@[k] < r@[l],
            forall|i: int| 0 <= i < self@.len() && self@[i] > 0 ==> r@.contains(i as usize),
    {
        let n = self.indices.len();
        let mut out: Vec<usize> = Vec::new();
        let mut i: usize = 0;
        while i < n
            invariant
                n == self@.len(),
                i <= n,
                forall|k: int| 0 <= k < out@.len() ==> out@[k] < i && self@[out@[k] as int] > 0,
                forall|k: int, l: int| 0 <= k < l < out@.len() ==> out@[k] < out@[l],
                forall|j: int| 0 <= j < i && self@[j] > 0 ==> out@.contains(j as usize),
            decreases n - i,
        {
            if self.indices[i] > 0 {
                let ghost before = out@;
                out.push(i);
                assert forall|j: int| 0 <= j < i + 1 && self@[j] > 0 implies out@.contains(
                    j as usize,
                ) by {
                    if j < i {
                        let k = choose|k: int| 0 <= k < before.len() && before[k] == j as usize;
                        assert(out@[k] == j as usize);
                    } else {
                        assert(out@[out@.len() - 1] == j as usize);
                    }
                }
            }
            i = i + 1;
        }
        out
    }
}

/// Enumerate all multi-indices `α ∈ ℕ^d` with `|α| ≤ max_degree`, in
/// lexicographic order; the first is the zero multi-index.
pub fn enumerate_total_degree(d: usize, max_degree: usize) -> (r: Result<
    Vec<MultiIndex>,
    MultiIndexError,
>)
    ensures
        d == 0 <==> r is Err,
        r matches Err(e) ==> e == MultiIndexError::ZeroD,
        r matches Ok(v) ==> index_views(v@) == bounded_vectors(d as nat, max_degree as nat),
{
    if d == 0 {
        return Err(MultiIndexError::ZeroD);
    }
    let mut result: Vec<MultiIndex> = Vec::new();
    let mut current: Vec<usize> = Vec::new();
    let mut k: usize = 0;
    while k < d
        invariant
            k <= d,
            current@.len() == k,
        decreases d - k,
    {
        current.push(0);
        k = k + 1;
    }
    enumerate_recursive(d, max_degree, 0, 0, &mut current, &mut result);
    assert(current@.subrange(0, 0) =~= Seq::<usize>::empty());
    assert forall|t: Seq<usize>| #![auto] Seq::<usize>::empty() + t == t by {
        assert(Seq::<usize>::empty() + t =~= t);
    }
    assert(bounded_vectors(d as nat, max_degree as nat).map_values(
        |t: Seq<usize>| Seq::<usize>::empty() + t,
    ) =~= bounded_vectors(d as nat, max_degree as nat));
    assert(index_views(Seq::<MultiIndex>::empty()) =~= Seq::<Seq<usize>>::empty());
    assert(index_views(result@) =~= bounded_vectors(d as nat, max_degree as nat));
    Ok(result)
}

/// Appends to `out` every completion of `current[0..pos]` to a full
/// `d`-vector whose total degree is at most `max_degree`, in
/// lexicographic order, given `current_sum = Σ current[0..pos]`.
fn enumerate_recursive(
    d: usize,
    max_degree: usize,
    pos: usize,
    current_sum: usize,
    current: &mut Vec<usize>,
    out: &mut Vec<MultiIndex>,
)
    requires
        pos <= d,
        current_sum <= max_degree,
        old(current)@.len() == d,
    ensures
        final(current)@.len() == d,
        final(current)@.subrange(0, pos as int) == old(current)@.subrange(0, pos as int),
        index_views(final(out)@) == index_views(old(out)@) + bounded_vectors(
            (d - pos) as nat,
            (max_degree - current_sum) as nat,
        ).map_values(|t: Seq<usize>| old(current)@.subrange(0, pos as int) + t),
    decreases d - pos,
{
    let ghost prefix = current@.subrange(0, pos as int);
    let ghost old_views = index_views(out@);
    if pos == d {
        let mut copy: Vec<usize> = Vec::new();
        let mut k: usize = 0;
        while k < d
            invariant
                k <= d,
                current@.len() == d,
                copy@ == current@.subrange(0, k as int),
            decreases d - k,
        {
            copy.push(current[k]);
            k = k + 1;
        }
        out.push(MultiIndex { indices: copy });
        assert(bounded_vectors(0, (max_degree - current_sum) as nat) =~= seq![
            Seq::<usize>::empty(),
        ]);
        assert(prefix + Seq::<usize>::empty() =~= prefix);
        assert(index_views(out@) =~= old_views.push(prefix));
        assert(bounded_vectors(0, (max_degree - current_sum) as nat).map_values(
            |t: Seq<usize>| prefix + t,
        ) =~= seq![prefix]);
        return ;
    }
    let remaining_budget = max_degree - current_sum;
    let ghost m = (d - pos) as nat;
    let ghost b = remaining_budget as nat;
    let ghost add_prefix = |t: Seq<usize>| prefix + t;
    assert(bounded_vectors(m, b) == lead_blocks(m, b, 0));
    let mut v: usize = 0;
    loop
        invariant_except_break
            v <= remaining_budget,
            index_views(out@) + lead_blocks(m, b, v as nat).map_values(add_prefix) == old_views
                + bounded_vectors(m, b).map_values(add_prefix),
        invariant
            pos < d,
            m == d - pos,
            b == remaining_budget,
            remaining_budget == max_degree - current_sum,
            current_sum <= max_degree,
            current@.len() == d,
            current@.subrange(0, pos as int) == prefix,
            add_prefix == (|t: Seq<usize>| prefix + t),
        ensures
            index_views(out@) == old_views + bounded_vectors(m, b).map_values(add_prefix),
        decreases remaining_budget - v,
    {
        let ghost before = index_views(out@);
        current.set(pos, v);
        assert(current@.subrange(0, pos as int) =~= prefix);
        let ghost inner_prefix = current@.subrange(0, pos as int + 1);
        assert(inner_prefix =~= prefix.push(v));
        enumerate_recursive(d, max_degree, pos + 1, current_sum + v, current, out);
        proof {
            assert(current@.subrange(0, pos as int) =~= inner_prefix.subrange(0, pos as int));
            let inner = bounded_vectors((d - (pos + 1)) as nat, (max_degree - (current_sum + v)) as nat);
            assert(index_views(out@) == before + inner.map_values(|t: Seq<usize>| inner_prefix + t));
            // The block for lead value v, with the prefix added, is what was appended.
            assert(lead_block(m, b, v as nat) == inner.map_values(|t: Seq<usize>| seq![v as usize] + t));
            assert(lead_block(m, b, v as nat).map_values(add_prefix) =~= inner.map_values(
                |t: Seq<usize>| inner_prefix + t,
            )) by {
                assert forall|i: int| 0 <= i < inner.len() implies #[trigger] (prefix + (seq![v as usize] + inner[i])) == inner_prefix + inner[i] by {
                    assert(prefix + (seq![v as usize] + inner[i]) =~= inner_prefix + inner[i]);
                }
            }
            assert(lead_blocks(m, b, v as nat) == lead_block(m, b, v as nat) + lead_blocks(m, b, (v + 1) as nat));
            assert(lead_blocks(m, b, v as nat).map_values(add_prefix) =~= lead_block(m, b, v as nat).map_values(add_prefix) + lead_blocks(m, b, (v + 1) as nat).map_values(add_prefix));
            assert(index_views(out@) + lead_blocks(m, b, (v + 1) as nat).map_values(add_prefix)
                =~= before + lead_blocks(m, b, v as nat).map_values(add_prefix));
        }
        if v == remaining_budget {
            proof {
                assert(lead_blocks(m, b, (v + 1) as nat) =~= Seq::<Seq<usize>>::empty());
                assert(index_views(out@) =~= index_views(out@) + lead_blocks(m, b, (v + 1) as nat).map_values(add_prefix));
            }
            break;
        }
        v = v + 1;
    }
}

/// Cardinality `C(d + p, d) = (d + p)! / (d! · p!)` of the total-degree
/// basis, computed as a product of exact quotients without forming the
/// factorials.
pub fn total_degree_basis_size(d: usize, max_degree: usize) -> (r: usize)
    requires
        d + max_degree <= usize::MAX,
        binomial((d + max_degree) as nat, d as nat) <= usize::MAX,
    ensures
        r == binomial((d + max_degree) as nat, d as nat),
{
    let n = d + max_degree;
    let k = if max_degree < d {
        max_degree
    } else {
        d
    };
    proof {
        lemma_binomial_symmetric(n as nat, d as nat);
        assert(binomial(n as nat, k as nat) == binomial(n as nat, d as nat));
    }
    let mut result: u128 = 1;
    let mut i: usize = 0;
    while i < k
        invariant
            n == d + max_degree,
            k <= d,
            k <= max_degree,
            k + k <= n,
            i <= k,
            result == binomial(n as nat, i as nat),
            binomial(n as nat, k as nat) <= usize::MAX,
        decreases k - i,
    {
        proof {
            lemma_binomial_step(n as nat, i as nat);
            lemma_binomial_monotone(n as nat, i as nat, k as nat);
            let c = binomial(n as nat, i as nat);
            assert(c * (n - i) <= (usize::MAX as int) * (usize::MAX as int)) by (nonlinear_arith)
                requires
                    c <= usize::MAX,
                    n - i <= usize::MAX,
                    n - i >= 0,
            ;
            assert((usize::MAX as int) * (usize::MAX as int) <= u128::MAX) by (nonlinear_arith)
                requires
                    usize::MAX <= u64::MAX,
            ;
        }
        let step = result * ((n - i) as u128);
        proof {
            let c = binomial(n as nat, (i + 1) as nat);
            assert(step == c * (i + 1));
            let st = step as int;
            assert(st / ((i + 1) as int) == c) by (nonlinear_arith)
                requires
                    st == c * (i + 1),
                    i + 1 > 0,
            ;
        }
        result = step / ((i + 1) as u128);
        i = i + 1;
    }
    proof {
        lemma_binomial_monotone(n as nat, k as nat, k as nat);
    }
    result as usize
}

// ── Laws of the enumeration ─────────────────────────────────────────

/// Suffix sums never exceed the whole sum.
pub proof fn lemma_suffix_sum_bounded(s: Seq<usize>, i: nat)
    requires
        i <= s.len(),
    ensures
        seq_sum(s.subrange(i as int, s.len() as int)) <= seq_sum(s),
    decreases i,
{
    if i > 0 {
        lemma_suffix_sum_bounded(s, (i - 1) as nat);
        let suffix = s.subrange(i as int - 1, s.len() as int);
        assert(suffix.drop_first() =~= s.subrange(i as int, s.len() as int));
        assert(seq_sum(suffix) == suffix[0] as nat + seq_sum(suffix.drop_first()));
    } else {
        assert(s.subrange(0, s.len() as int) =~= s);
    }
}


/// `seq_sum` of a sequence with a value prepended.
pub proof fn lemma_sum_prepend(v: usize, t: Seq<usize>)
    ensures
        seq_sum(seq![v] + t) == v + seq_sum(t),
        (seq![v] + t).len() == t.len() + 1,
        (seq![v] + t)[0] == v,
{
    assert((seq![v] + t).drop_first() =~= t);
}

/// Every vector of `bounded_vectors(m, b)` has length `m` and entry sum at
/// most `b`.
pub proof fn lemma_bounded_shape(m: nat, b: nat)
    requires
        b <= usize::MAX,
    ensures
        forall|k: int|
            0 <= k < bounded_vectors(m, b).len() ==> (#[trigger] bounded_vectors(m, b)[k]).len()
                == m && seq_sum(bounded_vectors(m, b)[k]) <= b,
    decreases m, 1nat, 0nat,
{
    if m > 0 {
        lemma_lead_blocks_shape(m, b, 0);
        assert(bounded_vectors(m, b) == lead_blocks(m, b, 0));
    } else {
        assert(bounded_vectors(0, b) =~= seq![Seq::<usize>::empty()]);
        assert(seq_sum(Seq::<usize>::empty()) == 0);
    }
}

/// Every vector of `lead_blocks(m, b, v)` has length `m`, entry sum at
/// most `b` and first entry at least `v`.
pub proof fn lemma_lead_blocks_shape(m: nat, b: nat, v: nat)
    requires
        m >= 1,
        b <= usize::MAX,
    ensures
        forall|k: int|
            0 <= k < lead_blocks(m, b, v).len() ==> (#[trigger] lead_blocks(m, b, v)[k]).len() == m
                && seq_sum(lead_blocks(m, b, v)[k]) <= b && lead_blocks(m, b, v)[k][0] >= v,
    decreases m, 0nat, b + 1 - v,
{
    if v <= b {
        lemma_bounded_shape((m - 1) as nat, (b - v) as nat);
        lemma_lead_blocks_shape(m, b, v + 1);
        let inner = bounded_vectors((m - 1) as nat, (b - v) as nat);
        let blk = lead_block(m, b, v);
        let rest = lead_blocks(m, b, v + 1);
        assert(lead_blocks(m, b, v) == blk + rest);
        assert forall|k: int| 0 <= k < blk.len() implies (#[trigger] blk[k]).len() == m
            && seq_sum(blk[k]) <= b && blk[k][0] >= v by {
            assert(blk[k] == seq![v as usize] + inner[k]);
            lemma_sum_prepend(v as usize, inner[k]);
        }
        assert forall|k: int| 0 <= k < lead_blocks(m, b, v).len() implies (
        #[trigger] lead_blocks(m, b, v)[k]).len() == m && seq_sum(lead_blocks(m, b, v)[k]) <= b
            && lead_blocks(m, b, v)[k][0] >= v by {
            if k < blk.len() {
                assert(lead_blocks(m, b, v)[k] == blk[k]);
            } else {
                assert(lead_blocks(m, b, v)[k] == rest[k - blk.len()]);
            }
        }
    }
}

/// Shifting the budget and the lead value together keeps the number of
/// vectors.
pub proof fn lemma_lead_blocks_len_shift(m: nat, b: nat, v: nat)
    requires
        m >= 1,
    ensures
        lead_blocks(m, b + 1, v + 1).len() == lead_blocks(m, b, v).len(),
    decreases b + 1 - v,
{
    if v <= b {
        lemma_lead_blocks_len_shift(m, b, v + 1);
        assert(((b + 1) - (v + 1)) as nat == (b - v) as nat);
        assert(lead_blocks(m, b + 1, v + 1) == lead_block(m, b + 1, v + 1) + lead_blocks(
            m,
            b + 1,
            v + 2,
        ));
        assert(lead_blocks(m, b, v) == lead_block(m, b, v) + lead_blocks(m, b, v + 1));
        assert(lead_block(m, b + 1, v + 1).len() == lead_block(m, b, v).len());
    } else {
        assert(lead_blocks(m, b + 1, v + 1) =~= Seq::<Seq<usize>>::empty());
    }
}

/// `|bounded_vectors(m, b)| = C(m + b, m)`.
pub proof fn lemma_bounded_count(m: nat, b: nat)
    ensures
        bounded_vectors(m, b).len() == binomial(m + b, m),
    decreases m + b,
{
    if m == 0 {
    } else if b == 0 {
        lemma_bounded_count((m - 1) as nat, 0);
        lemma_binomial_diagonal(m);
        lemma_binomial_diagonal((m - 1) as nat);
        assert(lead_blocks(m, 0, 1) =~= Seq::<Seq<usize>>::empty());
        assert(bounded_vectors(m, 0) == lead_block(m, 0, 0) + lead_blocks(m, 0, 1));
    } else {
        lemma_bounded_count((m - 1) as nat, b);
        lemma_bounded_count(m, (b - 1) as nat);
        lemma_lead_blocks_len_shift(m, (b - 1) as nat, 0);
        assert(bounded_vectors(m, b) == lead_block(m, b, 0) + lead_blocks(m, b, 1));
        assert(bounded_vectors(m, (b - 1) as nat) == lead_blocks(m, (b - 1) as nat, 0));
        assert(binomial(m + b, m) == binomial((m + b - 1) as nat, (m - 1) as nat) + binomial(
            (m + b - 1) as nat,
            m,
        ));
        assert((m - 1 + b) as nat == (m + b - 1) as nat);
        assert((m + (b - 1)) as nat == (m + b - 1) as nat);
    }
}

/// The first vector of `bounded_vectors(m, b)` is the zero vector.
pub proof fn lemma_bounded_first_is_zero(m: nat, b: nat)
    ensures
        bounded_vectors(m, b).len() >= 1,
        bounded_vectors(m, b)[0] == zero_vector(m),
    decreases m,
{
    if m == 0 {
        assert(zero_vector(0) =~= Seq::<usize>::empty());
    } else {
        lemma_bounded_first_is_zero((m - 1) as nat, b);
        let inner = bounded_vectors((m - 1) as nat, b);
        assert(bounded_vectors(m, b) == lead_block(m, b, 0) + lead_blocks(m, b, 1));
        assert(lead_block(m, b, 0)[0] == seq![0usize] + inner[0]);
        assert(seq![0usize] + zero_vector((m - 1) as nat) =~= zero_vector(m));
    }
}

/// Vectors of `lead_block(m, b, v)` lie in `lead_blocks(m, b, u)` for any
/// `u ≤ v`.
pub proof fn lemma_lead_blocks_contains(m: nat, b: nat, u: nat, v: nat, t: Seq<usize>)
    requires
        m >= 1,
        u <= v <= b,
        lead_block(m, b, v).contains(t),
    ensures
        lead_blocks(m, b, u).contains(t),
    decreases v - u,
{
    assert(lead_blocks(m, b, u) == lead_block(m, b, u) + lead_blocks(m, b, u + 1));
    if u == v {
        let k = choose|k: int| 0 <= k < lead_block(m, b, v).len() && lead_block(m, b, v)[k] == t;
        assert(lead_blocks(m, b, u)[k] == t);
    } else {
        lemma_lead_blocks_contains(m, b, u + 1, v, t);
        let rest = lead_blocks(m, b, u + 1);
        let k = choose|k: int| 0 <= k < rest.len() && rest[k] == t;
        let blen = lead_block(m, b, u).len() as int;
        assert(lead_blocks(m, b, u)[blen + k] == t);
    }
}

/// Every vector of length `m` with entry sum at most `b` appears in
/// `bounded_vectors(m, b)`.
pub proof fn lemma_bounded_complete(m: nat, b: nat, t: Seq<usize>)
    requires
        t.len() == m,
        seq_sum(t) <= b,
    ensures
        bounded_vectors(m, b).contains(t),
    decreases m,
{
    if m == 0 {
        assert(t =~= Seq::<usize>::empty());
        assert(bounded_vectors(0, b)[0] == t);
    } else {
        let v = t[0];
        let rest = t.drop_first();
        assert(seq![v] + rest =~= t);
        lemma_sum_prepend(v, rest);
        lemma_bounded_complete((m - 1) as nat, (b - v) as nat, rest);
        let inner = bounded_vectors((m - 1) as nat, (b - v) as nat);
        let k = choose|k: int| 0 <= k < inner.len() && inner[k] == rest;
        assert(lead_block(m, b, v as nat)[k] == t);
        lemma_lead_blocks_contains(m, b, 0, v as nat, t);
    }
}

/// No vector occurs twice.
pub open spec fn no_duplicates(s: Seq<Seq<usize>>) -> bool {
    forall|i: int, j: int| 0 <= i < j < s.len() ==> s[i] != s[j]
}

/// `bounded_vectors(m, b)` has no duplicates.
pub proof fn lemma_bounded_unique(m: nat, b: nat)
    requires
        b <= usize::MAX,
    ensures
        no_duplicates(bounded_vectors(m, b)),
    decreases m, 1nat, 0nat,
{
    if m > 0 {
        lemma_lead_blocks_unique(m, b, 0);
        assert(bounded_vectors(m, b) == lead_blocks(m, b, 0));
    }
}

/// `lead_blocks(m, b, v)` has no duplicates.
pub proof fn lemma_lead_blocks_unique(m: nat, b: nat, v: nat)
    requires
        m >= 1,
        b <= usize::MAX,
    ensures
        no_duplicates(lead_blocks(m, b, v)),
    decreases m, 0nat, b + 1 - v,
{
    if v <= b {
        lemma_bounded_unique((m - 1) as nat, (b - v) as nat);
        lemma_lead_blocks_unique(m, b, v + 1);
        lemma_lead_blocks_shape(m, b, v + 1);
        let inner = bounded_vectors((m - 1) as nat, (b - v) as nat);
        let blk = lead_block(m, b, v);
        let rest = lead_blocks(m, b, v + 1);
        let all = lead_blocks(m, b, v);
        assert(all == blk + rest);
        assert forall|k: int| 0 <= k < blk.len() implies (#[trigger] blk[k]).len() >= 1 && blk[k][0]
            == v && blk[k].drop_first() == inner[k] by {
            assert(blk[k] == seq![v as usize] + inner[k]);
            assert((seq![v as usize] + inner[k]).drop_first() =~= inner[k]);
        }
        assert forall|i: int, j: int| 0 <= i < j < all.len() implies all[i] != all[j] by {
            if j < blk.len() {
                assert(all[i] == blk[i] && all[j] == blk[j]);
                assert(blk[i].drop_first() != blk[j].drop_first());
            } else if i >= blk.len() {
                assert(all[i] == rest[i - blk.len()] && all[j] == rest[j - blk.len()]);
            } else {
                assert(all[i] == blk[i] && all[j] == rest[j - blk.len()]);
                assert(rest[j - blk.len()][0] >= v + 1);
            }
        }
    }
}

/// `bounded_vectors(m, b)` is strictly increasing in lexicographic order.
pub proof fn lemma_bounded_sorted(m: nat, b: nat)
    requires
        b <= usize::MAX,
    ensures
        forall|i: int, j: int|
            0 <= i < j < bounded_vectors(m, b).len() ==> lex_less(
                #[trigger] bounded_vectors(m, b)[i],
                #[trigger] bounded_vectors(m, b)[j],
            ),
    decreases m, 1nat, 0nat,
{
    if m > 0 {
        lemma_lead_blocks_sorted(m, b, 0);
        assert(bounded_vectors(m, b) == lead_blocks(m, b, 0));
    }
}

/// `lead_blocks(m, b, v)` is strictly increasing in lexicographic order.
pub proof fn lemma_lead_blocks_sorted(m: nat, b: nat, v: nat)
    requires
        m >= 1,
        b <= usize::MAX,
    ensures
        forall|i: int, j: int|
            0 <= i < j < lead_blocks(m, b, v).len() ==> lex_less(
                #[trigger] lead_blocks(m, b, v)[i],
                #[trigger] lead_blocks(m, b, v)[j],
            ),
    decreases m, 0nat, b + 1 - v,
{
    if v <= b {
        lemma_bounded_sorted((m - 1) as nat, (b - v) as nat);
        lemma_lead_blocks_sorted(m, b, v + 1);
        lemma_lead_blocks_shape(m, b, v + 1);
        let inner = bounded_vectors((m - 1) as nat, (b - v) as nat);
        let blk = lead_block(m, b, v);
        let rest = lead_blocks(m, b, v + 1);
        let all = lead_blocks(m, b, v);
        assert(all == blk + rest);
        assert forall|k: int| 0 <= k < blk.len() implies (#[trigger] blk[k]).len() >= 1 && blk[k][0]
            == v && blk[k].drop_first() == inner[k] by {
            assert(blk[k] == seq![v as usize] + inner[k]);
            assert((seq![v as usize] + inner[k]).drop_first() =~= inner[k]);
        }
        assert forall|i: int, j: int| 0 <= i < j < all.len() implies lex_less(
            #[trigger] all[i],
            #[trigger] all[j],
        ) by {
            if j < blk.len() {
                assert(all[i] == blk[i] && all[j] == blk[j]);
                assert(lex_less(inner[i], inner[j]));
                assert(blk[i].drop_first() == inner[i] && blk[j].drop_first() == inner[j]);
            } else if i >= blk.len() {
                assert(all[i] == rest[i - blk.len()] && all[j] == rest[j - blk.len()]);
            } else {
                assert(all[i] == blk[i] && all[j] == rest[j - blk.len()]);
                assert(rest[j - blk.len()][0] >= v + 1);
                assert(rest[j - blk.len()].len() == m);
            }
        }
    }
}

/// The total-degree basis: exactly the vectors of length `d` with entry
/// sum at most `p`, each once, starting with the zero vector, in strictly
/// increasing lexicographic order (the first factor varies slowest), and
/// `C(d + p, d)` of them.
pub proof fn law_total_degree_basis(d: nat, p: nat)
    requires
        p <= usize::MAX,
    ensures
        bounded_vectors(d, p).len() == binomial(d + p, d),
        bounded_vectors(d, p)[0] == zero_vector(d),
        forall|k: int|
            0 <= k < bounded_vectors(d, p).len() ==> (#[trigger] bounded_vectors(d, p)[k]).len()
                == d && seq_sum(bounded_vectors(d, p)[k]) <= p,
        forall|t: Seq<usize>|
            t.len() == d && seq_sum(t) <= p ==> #[trigger] bounded_vectors(d, p).contains(t),
        no_duplicates(bounded_vectors(d, p)),
        forall|i: int, j: int|
            0 <= i < j < bounded_vectors(d, p).len() ==> lex_less(
                #[trigger] bounded_vectors(d, p)[i],
                #[trigger] bounded_vectors(d, p)[j],
            ),
{
    lemma_bounded_sorted(d, p);
    lemma_bounded_count(d, p);
    lemma_bounded_first_is_zero(d, p);
    lemma_bounded_shape(d, p);
    lemma_bounded_unique(d, p);
    assert forall|t: Seq<usize>| t.len() == d && seq_sum(t) <= p implies #[trigger] bounded_vectors(
        d,
        p,
    ).contains(t) by {
        lemma_bounded_complete(d, p, t);
    }
}

/// The size of the total-degree basis in closed form:
/// `C(d + p, d) = (d + p)! / (d! · p!)`, the same for `d` and `p`
/// exchanged, and the length of the enumerated basis.
pub proof fn law_total_degree_basis_size(d: nat, p: nat)
    requires
        p <= usize::MAX,
    ensures
        binomial(d + p, d) * factorial(d) * factorial(p) == factorial(d + p),
        binomial(d + p, d) == binomial(p + d, p),
        bounded_vectors(d, p).len() == binomial(d + p, d),
{
    lemma_binomial_factorial(d + p, d);
    assert(((d + p) - d) as nat == p);
    lemma_binomial_symmetric(d + p, d);
    assert(((d + p) - d) as nat == p);
    assert(d + p == p + d);
    lemma_bounded_count(d, p);
}

} // verus!
