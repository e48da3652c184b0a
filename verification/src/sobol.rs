//! Sobol' low-discrepancy sequence: Joe–Kuo direction numbers and the
//! Antonov–Saleev gray-code recursion on 32-bit integer states.
//!
//! Dimension 1 uses `v_i = 1 << (32 − i)`; dimension `j + 1 ≥ 2` uses the
//! Joe–Kuo row `(s, a, m_1..m_s)`:
//!
//! ```text
//! v_i = m_i << (32 − i)                                   for i ≤ s
//! v_i = (v_{i−s} >> s) ⊕ v_{i−s} ⊕ ⨁_{k=1}^{s−1} a_k · v_{i−k}   for i > s
//! ```
//!
//! with `a_k` bit `s − 1 − k` of `a`. Point `k` has state
//! `x_k = x_{k−1} ⊕ v_{c(k)+1}`, `c(k)` the number of trailing zeros of
//! `k`, and unit value `x_k / 2³²`.

use sobol::params::JoeKuoD6;
use vstd::prelude::*;

use crate::sobol_net::{
    lemma_row_directions_shaped, lemma_trivial_directions_shaped, odd_initial_numbers, sobol_shaped,
};

verus! {

/// Row `k` (`0 ≤ k < 999`) of the 1000-dimension Joe–Kuo table: the
/// `(a, m_1..m_s)` of dimension `k + 2`.
pub uninterp spec fn joe_kuo_standard_row(k: int) -> (u32, Seq<u32>);

/// Row `k` (`0 ≤ k < 99`) of the 100-dimension Joe–Kuo table: the
/// `(a, m_1..m_s)` of dimension `k + 2`.
pub uninterp spec fn joe_kuo_minimal_row(k: int) -> (u32, Seq<u32>);

/// Reads `JoeKuoD6::standard().dim_params[k]` (the vendored
/// `new-joe-kuo-6.1000` table, 999 rows). Every row of that table has
/// between 1 and 13 initial direction numbers `m_1..m_s`, each odd and
/// below `2^k`.
#[verifier::external_body]
fn joe_kuo_standard_params(k: usize) -> (r: (u32, Vec<u32>))
    requires
        k < 999,
    ensures
        r.0 == joe_kuo_standard_row(k as int).0,
        r.1@ == joe_kuo_standard_row(k as int).1,
        1 <= r.1@.len() <= 13,
        odd_initial_numbers(r.1@),
{
    let row = &JoeKuoD6::standard().dim_params[k];
    (row.a, row.m.clone())
}

/// Reads `JoeKuoD6::minimal().dim_params[k]` (the vendored
/// `new-joe-kuo-6.100` table, 99 rows). Every row of that table has
/// between 1 and 9 initial direction numbers `m_1..m_s`, each odd and
/// below `2^k`.
#[verifier::external_body]
fn joe_kuo_minimal_params(k: usize) -> (r: (u32, Vec<u32>))
    requires
        k < 99,
    ensures
        r.0 == joe_kuo_minimal_row(k as int).0,
        r.1@ == joe_kuo_minimal_row(k as int).1,
        1 <= r.1@.len() <= 9,
        odd_initial_numbers(r.1@),
{
    let row = &JoeKuoD6::minimal().dim_params[k];
    (row.a, row.m.clone())
}

/// Which Joe–Kuo table to use.
#[derive(Debug, Clone, Copy, PartialEq, Eq, Structural)]
#[non_exhaustive]
pub enum SobolDimSet {
    /// Up to 100 dimensions.
    Minimal,
    /// Up to 1000 dimensions.
    Standard,
}

/// Highest dimension count a table supports (its rows plus the trivial
/// first dimension).
pub open spec fn max_dims_of(set: SobolDimSet) -> nat {
    match set {
        SobolDimSet::Minimal => 100,
        SobolDimSet::Standard => 1000,
    }
}

/// Row `k` of a table: the Joe–Kuo parameters of dimension `k + 2`.
pub open spec fn joe_kuo_row(set: SobolDimSet, k: int) -> (u32, Seq<u32>) {
    match set {
        SobolDimSet::Minimal => joe_kuo_minimal_row(k),
        SobolDimSet::Standard => joe_kuo_standard_row(k),
    }
}

impl SobolDimSet {
    /// Highest supported dimension count.
    pub fn max_dims(self) -> (r: usize)
        ensures
            r == max_dims_of(self),
    {
        match self {
            SobolDimSet::Minimal => 100,
            SobolDimSet::Standard => 1000,
        }
    }

    /// The `(a, m)` parameters of dimension `j + 1`, `1 ≤ j < max_dims`:
    /// table row `j − 1`, since dimension 1 has no row.
    pub fn dims(self, j: usize) -> (r: (u32, Vec<u32>))
        requires
            1 <= j < max_dims_of(self),
        ensures
            r.0 == joe_kuo_row(self, j - 1).0,
            r.1@ == joe_kuo_row(self, j - 1).1,
            1 <= r.1@.len() <= 13,
            odd_initial_numbers(r.1@),
    {
        let k = j - 1;
        match self {
            SobolDimSet::Minimal => joe_kuo_minimal_params(k),
            SobolDimSet::Standard => joe_kuo_standard_params(k),
        }
    }
}

/// Direction number `v_i` (`1 ≤ i`) of the Joe–Kuo recurrence for the row
/// `(a, m)`.
pub open spec fn direction_number(a: u32, m: Seq<u32>, i: nat) -> u32
    decreases i, 1nat, 0nat,
{
    let s = m.len();
    if i == 0 || s == 0 || s >= 32 {
        0
    } else if i <= s {
        m[i - 1] << ((32 - i) as u32)
    } else {
        let base = direction_number(a, m, (i - s) as nat);
        recurrence_fold(a, m, i, 1, (base >> (s as u32)) ^ base)
    }
}

/// Folds the terms `a_k · v_{i−k}` for `k = k0, …, s − 1` into `acc`.
pub open spec fn recurrence_fold(a: u32, m: Seq<u32>, i: nat, k0: nat, acc: u32) -> u32
    decreases i, 0nat, m.len() - k0,
{
    let s = m.len();
    if k0 >= s || k0 == 0 || i <= s || s >= 32 {
        acc
    } else {
        let term = if (a >> ((s - 1 - k0) as u32)) & 1u32 != 0 {
            direction_number(a, m, (i - k0) as nat)
        } else {
            0u32
        };
        recurrence_fold(a, m, i, k0 + 1, acc ^ term)
    }
}

/// Direction numbers `v_1..v_32` of the trivial first dimension.
pub open spec fn trivial_direction_number(i: nat) -> u32 {
    if 1 <= i <= 32 {
        1u32 << ((32 - i) as u32)
    } else {
        0
    }
}

/// Direction numbers of dimension `j + 1` of a table.
pub open spec fn dimension_direction_number(set: SobolDimSet, j: int, i: nat) -> u32 {
    if j == 0 {
        trivial_direction_number(i)
    } else {
        direction_number(joe_kuo_row(set, j - 1).0, joe_kuo_row(set, j - 1).1, i)
    }
}

/// Number of trailing zero bits of `k ≥ 1`.
pub open spec fn trailing_zero_count(k: nat) -> nat
    decreases k,
{
    if k == 0 || k % 2 == 1 {
        0
    } else {
        1 + trailing_zero_count(k / 2)
    }
}

/// Gray-code state `x_k` of one dimension with direction numbers `v`.
pub open spec fn gray_state(v: spec_fn(nat) -> u32, k: nat) -> u32
    decreases k,
{
    if k == 0 {
        0
    } else {
        gray_state(v, (k - 1) as nat) ^ v(trailing_zero_count(k) + 1)
    }
}

/// Direction numbers `v_0..v_32` (`v_0 = 0`) for the Joe–Kuo row `(a, m)`.
pub fn direction_numbers_from(a: u32, m: &Vec<u32>) -> (v: [u32; 33])
    requires
        1 <= m@.len() <= 31,
    ensures
        v[0] == 0,
        forall|i: int| 1 <= i <= 32 ==> v[i] == direction_number(a, m@, i as nat),
{
    let s = m.len();
    let mut v = [0u32; 33];
    let mut i: usize = 1;
    while i <= s
        invariant
            s == m@.len(),
            1 <= s <= 31,
            1 <= i <= s + 1,
            v[0] == 0,
            forall|t: int| 1 <= t < i ==> v[t] == direction_number(a, m@, t as nat),
        decreases s + 1 - i,
    {
        v[i] = m[i - 1] << (32 - i as u32);
        i = i + 1;
    }
    while i <= 32
        invariant
            s == m@.len(),
            1 <= s <= 31,
            s + 1 <= i <= 33,
            v[0] == 0,
            forall|t: int| 1 <= t < i ==> v[t] == direction_number(a, m@, t as nat),
        decreases 33 - i,
    {
        let base = v[i - s];
        let mut value = (base >> s as u32) ^ base;
        let mut k: usize = 1;
        while k < s
            invariant
                s == m@.len(),
                1 <= s <= 31,
                s + 1 <= i <= 32,
                1 <= k <= s,
                forall|t: int| 1 <= t < i ==> v[t] == direction_number(a, m@, t as nat),
                recurrence_fold(a, m@, i as nat, k as nat, value) == direction_number(
                    a,
                    m@,
                    i as nat,
                ),
            decreases s - k,
        {
            let a_k = (a >> (s - 1 - k) as u32) & 1;
            if a_k != 0 {
                value = value ^ v[i - k];
            } else {
                assert(value ^ 0u32 == value) by (bit_vector);
            }
            k = k + 1;
        }
        v[i] = value;
        i = i + 1;
    }
    v
}

/// Direction numbers `v_0..v_32` of the trivial first dimension.
pub fn trivial_direction_numbers() -> (v: [u32; 33])
    ensures
        v[0] == 0,
        forall|i: int| 1 <= i <= 32 ==> v[i] == trivial_direction_number(i as nat),
{
    let mut v = [0u32; 33];
    let mut i: usize = 1;
    while i <= 32
        invariant
            1 <= i <= 33,
            v[0] == 0,
            forall|t: int| 1 <= t < i ==> v[t] == trivial_direction_number(t as nat),
        decreases 33 - i,
    {
        v[i] = 1u32 << (32 - i as u32);
        i = i + 1;
    }
    v
}


/// Direction numbers of dimension `j + 1` as a function of `i`.
pub open spec fn dimension_directions(set: SobolDimSet, j: int) -> spec_fn(nat) -> u32 {
    |i: nat| dimension_direction_number(set, j, i)
}

/// `2^e`.
pub open spec fn pow2_nat(e: nat) -> nat
    decreases e,
{
    if e == 0 {
        1
    } else {
        2 * pow2_nat((e - 1) as nat)
    }
}

/// A positive `k < 2^e` has fewer than `e` trailing zeros.
pub proof fn lemma_trailing_zeros_below(k: nat, e: nat)
    requires
        1 <= k < pow2_nat(e),
    ensures
        trailing_zero_count(k) < e,
    decreases k,
{
    if e == 0 {
    } else if k % 2 == 0 {
        lemma_trailing_zeros_below(k / 2, (e - 1) as nat);
    }
}

/// Number of trailing zero bits of `k`, `1 ≤ k < 2³²`.
fn trailing_zeros_of(k: usize) -> (c: usize)
    requires
        1 <= k < pow2_nat(32),
    ensures
        c == trailing_zero_count(k as nat),
        c < 32,
{
    proof {
        lemma_trailing_zeros_below(k as nat, 32);
    }
    let mut c: usize = 0;
    let mut x: usize = k;
    while x % 2 == 0
        invariant
            x >= 1,
            c + trailing_zero_count(x as nat) == trailing_zero_count(k as nat),
            trailing_zero_count(k as nat) < 32,
        decreases x,
    {
        x = x / 2;
        c = c + 1;
    }
    c
}

/// `2^e ≥ 1`.
pub proof fn lemma_pow2_grows(e: nat)
    ensures
        pow2_nat(e) >= 1,
    decreases e,
{
    if e > 0 {
        lemma_pow2_grows((e - 1) as nat);
    }
}

/// `2^a ≤ 2^b` for `a ≤ b`.
pub proof fn lemma_pow2_monotone(a: nat, b: nat)
    requires
        a <= b,
    ensures
        pow2_nat(a) <= pow2_nat(b),
    decreases b,
{
    if a < b {
        lemma_pow2_monotone(a, (b - 1) as nat);
        lemma_pow2_grows((b - 1) as nat);
    }
}

/// Sobol' sampler over `dim` columns.
#[derive(Debug, Clone, Copy, PartialEq, Eq, Structural)]
#[non_exhaustive]
pub struct SobolSampler {
    /// Output column count.
    pub dim: usize,
    /// Which Joe–Kuo table to use.
    pub dim_set: SobolDimSet,
    /// Drop the all-zeros origin point.
    pub skip_first: bool,
}

/// Generator index of the first emitted point.
pub open spec fn first_index(skip_first: bool) -> nat {
    if skip_first {
        1
    } else {
        0
    }
}

impl SobolSampler {
    /// Sobol' over the 1000-dimension table, skipping the origin.
    pub fn standard(dim: usize) -> (s: Self)
        requires
            1 <= dim <= 1000,
        ensures
            s.dim == dim,
            s.dim_set == SobolDimSet::Standard,
            s.skip_first,
    {
        Self::with(dim, SobolDimSet::Standard, true)
    }

    /// Sobol' over the 100-dimension table, skipping the origin.
    pub fn minimal(dim: usize) -> (s: Self)
        requires
            1 <= dim <= 100,
        ensures
            s.dim == dim,
            s.dim_set == SobolDimSet::Minimal,
            s.skip_first,
    {
        Self::with(dim, SobolDimSet::Minimal, true)
    }

    /// Sampler with explicit settings; `dim` must lie in
    /// `1..=dim_set.max_dims()`.
    pub fn with(dim: usize, dim_set: SobolDimSet, skip_first: bool) -> (s: Self)
        requires
            1 <= dim <= max_dims_of(dim_set),
        ensures
            s.dim == dim,
            s.dim_set == dim_set,
            s.skip_first == skip_first,
    {
        SobolSampler { dim, dim_set, skip_first }
    }

    /// The same sampler with `skip_first` replaced.
    pub fn with_skip_first(self, skip_first: bool) -> (s: Self)
        ensures
            s.dim == self.dim,
            s.dim_set == self.dim_set,
            s.skip_first == skip_first,
    {
        let mut s = self;
        s.skip_first = skip_first;
        s
    }

    /// Output column count.
    pub fn dim(&self) -> (d: usize)
        ensures
            d == self.dim,
    {
        self.dim
    }

    /// Direction numbers `v_0..v_32` (`v_0 = 0`) of dimension `j + 1`.
    pub fn direction_numbers(&self, j: usize) -> (v: [u32; 33])
        requires
            j < max_dims_of(self.dim_set),
        ensures
            v[0] == 0,
            forall|i: int|
                1 <= i <= 32 ==> v[i] == dimension_direction_number(self.dim_set, j as int, i as nat),
            sobol_shaped(dimension_directions(self.dim_set, j as int), 32),
    {
        let ghost dirs = dimension_directions(self.dim_set, j as int);
        if j == 0 {
            proof {
                assert forall|i: nat| 1 <= i <= 32 implies #[trigger] dirs(i) == 1u32 << ((32 - i) as u32) by {
                    assert(dirs(i) == trivial_direction_number(i));
                }
                lemma_trivial_directions_shaped(dirs);
            }
            trivial_direction_numbers()
        } else {
            let (a, m) = self.dim_set.dims(j);
            proof {
                assert forall|i: nat| 1 <= i <= 32 implies #[trigger] dirs(i) == direction_number(a, m@, i) by {
                    assert(dirs(i) == dimension_direction_number(self.dim_set, j as int, i));
                }
                lemma_row_directions_shaped(a, m@, dirs);
            }
            direction_numbers_from(a, &m)
        }
    }

    /// Integer states of the first `n` emitted points, row-major: row `r`
    /// holds `x_g` of every dimension for generator index
    /// `g = r + (1 if skip_first else 0)`; the unit value is `x_g / 2³²`.
    /// Needs `g < 2³²` for every emitted point.
    pub fn unit_states(&self, n: usize) -> (out: Vec<Vec<u32>>)
        requires
            self.dim <= max_dims_of(self.dim_set),
            n + first_index(self.skip_first) <= pow2_nat(32),
        ensures
            out@.len() == n,
            forall|r: int| 0 <= r < n ==> (#[trigger] out@[r])@.len() == self.dim,
            forall|r: int, j: int|
                0 <= r < n && 0 <= j < self.dim ==> (#[trigger] out@[r]@[j]) == gray_state(
                    dimension_directions(self.dim_set, j),
                    (r + first_index(self.skip_first)) as nat,
                ),
            forall|j: int| 0 <= j < self.dim ==> sobol_shaped(#[trigger] dimension_directions(self.dim_set, j), 32),
    {
        let dim = self.dim;
        let mut dir_nums: Vec<[u32; 33]> = Vec::new();
        let mut j: usize = 0;
        while j < dim
            invariant
                dim == self.dim,
                dim <= max_dims_of(self.dim_set),
                j <= dim,
                dir_nums@.len() == j,
                forall|t: int, i: int|
                    0 <= t < j && 1 <= i <= 32 ==> #[trigger] dir_nums@[t][i]
                        == dimension_direction_number(self.dim_set, t, i as nat),
                forall|t: int| 0 <= t < j ==> sobol_shaped(#[trigger] dimension_directions(self.dim_set, t), 32),
            decreases dim - j,
        {
            dir_nums.push(self.direction_numbers(j));
            j = j + 1;
        }
        let mut state: Vec<u32> = Vec::new();
        let mut j: usize = 0;
        while j < dim
            invariant
                j <= dim,
                dim == self.dim,
                state@.len() == j,
                forall|t: int| 0 <= t < j ==> state@[t] == 0,
                forall|t: int| 0 <= t < dim ==> sobol_shaped(#[trigger] dimension_directions(self.dim_set, t), 32),
            decreases dim - j,
        {
            state.push(0);
            j = j + 1;
        }
        let start: usize = if self.skip_first {
            1
        } else {
            0
        };
        let mut out: Vec<Vec<u32>> = Vec::new();
        let mut row: usize = 0;
        while row < n
            invariant
                dim == self.dim,
                start == first_index(self.skip_first),
                n + start <= pow2_nat(32),
                row <= n,
                forall|t: int| 0 <= t < dim ==> sobol_shaped(#[trigger] dimension_directions(self.dim_set, t), 32),
                dir_nums@.len() == dim,
                forall|t: int, i: int|
                    0 <= t < dim && 1 <= i <= 32 ==> #[trigger] dir_nums@[t][i]
                        == dimension_direction_number(self.dim_set, t, i as nat),
                state@.len() == dim,
                forall|t: int|
                    0 <= t < dim ==> #[trigger] state@[t] == gray_state(
                        dimension_directions(self.dim_set, t),
                        if start + row == 0 {
                            0
                        } else {
                            (start + row - 1) as nat
                        },
                    ),
                out@.len() == row,
                forall|r: int| 0 <= r < row ==> (#[trigger] out@[r])@.len() == dim,
                forall|r: int, t: int|
                    0 <= r < row && 0 <= t < dim ==> (#[trigger] out@[r]@[t]) == gray_state(
                        dimension_directions(self.dim_set, t),
                        (r + start) as nat,
                    ),
            decreases n - row,
        {
            let gen_idx = start + row;
            if gen_idx == 0 {
                out.push(state.clone());
                proof {
                    assert(out@[row as int]@ =~= state@);
                }
            } else {
                let c = trailing_zeros_of(gen_idx);
                let mut t: usize = 0;
                while t < dim
                    invariant
                        dim == self.dim,
                        gen_idx >= 1,
                        c == trailing_zero_count(gen_idx as nat),
                        c < 32,
                        t <= dim,
                        dir_nums@.len() == dim,
                        forall|q: int, i: int|
                            0 <= q < dim && 1 <= i <= 32 ==> #[trigger] dir_nums@[q][i]
                                == dimension_direction_number(self.dim_set, q, i as nat),
                        state@.len() == dim,
                        forall|q: int|
                            0 <= q < t ==> #[trigger] state@[q] == gray_state(
                                dimension_directions(self.dim_set, q),
                                gen_idx as nat,
                            ),
                        forall|q: int|
                            t <= q < dim ==> #[trigger] state@[q] == gray_state(
                                dimension_directions(self.dim_set, q),
                                (gen_idx - 1) as nat,
                            ),
                    decreases dim - t,
                {
                    let x = state[t] ^ dir_nums[t][c + 1];
                    proof {
                        let v = dimension_directions(self.dim_set, t as int);
                        assert(v(trailing_zero_count(gen_idx as nat) + 1) == dir_nums@[t as int][c + 1]);
                        assert(gray_state(v, gen_idx as nat) == gray_state(v, (gen_idx - 1) as nat) ^ v(
                            trailing_zero_count(gen_idx as nat) + 1,
                        ));
                    }
                    state.set(t, x);
                    t = t + 1;
                }
                out.push(state.clone());
                proof {
                    assert(out@[row as int]@ =~= state@);
                }
            }
            row = row + 1;
        }
        out
    }
}

/// The points `unit_states` emits: without skip-first, row 0 is the
/// origin of every dimension; with skip-first, row `r` is row `r + 1` of
/// the sequence that keeps the origin. Neither depends on a generator.
pub proof fn law_sobol_rows(set: SobolDimSet, j: int, r: nat)
    ensures
        gray_state(dimension_directions(set, j), 0 + first_index(false)) == 0,
        gray_state(dimension_directions(set, j), r + first_index(true)) == gray_state(
            dimension_directions(set, j),
            (r + 1) + first_index(false),
        ),
{
    assert(0 + first_index(false) == 0);
    assert(r + first_index(true) == (r + 1) + first_index(false));
}

} // verus!
