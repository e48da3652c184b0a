//! Plackett–Burman two-level screening designs (Plackett & Burman 1946)
//! for 1 to 23 factors, built by cyclic shifts of the known generating
//! vectors.
//!
//! With `N` the smallest multiple of 4 above `dim`, row `i < N − 1` is the
//! generating vector of length `N − 1` rotated left by `i`, restricted to
//! the first `dim` columns, and the last row is all `−1`. Entries are
//! `±1`; the main-effect columns are orthogonal, `XᵀX = N·I`.

use vstd::prelude::*;

verus! {

/// Errors from [`build_plackett_burman`].
#[derive(Debug, Clone, Copy, PartialEq, Eq, Structural)]
pub enum PbError {
    /// Dimension must be at least 1.
    ZeroDim,
    /// Dimension exceeds 23 (the largest generating vector has 23 entries).
    DimTooLarge(usize),
}

/// A Plackett–Burman design matrix.
#[derive(Debug, Clone)]
pub struct PlackettBurmanDesign {
    /// `n_runs` rows of `dim` entries in `{−1, +1}`.
    pub matrix: Vec<Vec<i8>>,
    /// Number of runs (rows), a multiple of 4.
    pub n_runs: usize,
    /// Number of factors (columns).
    pub dim: usize,
}

/// Smallest multiple of 4 that is at least `v`.
pub open spec fn next_multiple_of_4_spec(v: nat) -> nat {
    if v % 4 == 0 {
        v
    } else {
        (v + (4 - v % 4)) as nat
    }
}

/// The generating vector of the `n`-run design (`n − 1` entries).
pub open spec fn generator(n: nat) -> Seq<int> {
    if n == 4 {
        seq![1int, -1, 1]
    } else if n == 8 {
        seq![1int, 1, 1, -1, 1, -1, -1]
    } else if n == 12 {
        seq![1int, 1, -1, 1, 1, 1, -1, -1, -1, 1, -1]
    } else if n == 16 {
        seq![1int, 1, 1, 1, -1, 1, -1, 1, 1, -1, -1, 1, -1, -1, -1]
    } else if n == 20 {
        seq![1int, 1, -1, 1, 1, -1, -1, -1, -1, 1, -1, 1, -1, 1, 1, 1, 1, -1, -1]
    } else {
        seq![1int, 1, 1, 1, 1, -1, 1, -1, 1, 1, -1, -1, 1, 1, -1, -1, 1, -1, 1, -1, -1, -1, -1]
    }
}

/// Entry `(i, j)` of the `n`-run design: the generator rotated left by
/// `i` for `i < n − 1`, `−1` on the last row.
pub open spec fn pb_entry(n: nat, i: int, j: int) -> int {
    if i == n - 1 {
        -1
    } else {
        generator(n)[(i + j) % (n - 1) as int]
    }
}

/// Smallest multiple of 4 that is at least `min_val`.
pub fn next_multiple_of_4(min_val: usize) -> (r: usize)
    requires
        min_val + 3 <= usize::MAX,
    ensures
        r == next_multiple_of_4_spec(min_val as nat),
        r % 4 == 0,
        min_val <= r < min_val + 4,
{
    let rem = min_val % 4;
    if rem == 0 {
        min_val
    } else {
        min_val + (4 - rem)
    }
}

/// The generating vector of the `n`-run design.
fn generating_vector(n: usize) -> (g: Vec<i8>)
    requires
        n == 4 || n == 8 || n == 12 || n == 16 || n == 20 || n == 24,
    ensures
        g@.len() == n - 1,
        forall|i: int| 0 <= i < n - 1 ==> g@[i] as int == #[trigger] generator(n as nat)[i],
{
    let p: i8 = 1;
    let m: i8 = -1;
    let g = if n == 4 {
        vec![p, m, p]
    } else if n == 8 {
        vec![p, p, p, m, p, m, m]
    } else if n == 12 {
        vec![p, p, m, p, p, p, m, m, m, p, m]
    } else if n == 16 {
        vec![p, p, p, p, m, p, m, p, p, m, m, p, m, m, m]
    } else if n == 20 {
        vec![p, p, m, p, p, m, m, m, m, p, m, p, m, p, p, p, p, m, m]
    } else {
        vec![p, p, p, p, p, m, p, m, p, p, m, m, p, p, m, m, p, m, p, m, m, m, m]
    };
    assert(g@.map_values(|x: i8| x as int) =~= generator(n as nat));
    assert forall|i: int| 0 <= i < n - 1 implies g@[i] as int == #[trigger] generator(n as nat)[i] by {
        assert(g@.map_values(|x: i8| x as int)[i] == g@[i] as int);
    }
    g
}

/// Builds the Plackett–Burman design for `dim` factors with
/// `N = next multiple of 4 ≥ dim + 1` runs.
pub fn build_plackett_burman(dim: usize) -> (r: Result<PlackettBurmanDesign, PbError>)
    ensures
        dim == 0 ==> r == Err::<PlackettBurmanDesign, PbError>(PbError::ZeroDim),
        dim > 23 ==> r == Err::<PlackettBurmanDesign, PbError>(PbError::DimTooLarge(dim)),
        1 <= dim <= 23 <==> r is Ok,
        r matches Ok(pb) ==> {
            &&& pb.dim == dim
            &&& pb.n_runs == next_multiple_of_4_spec((dim + 1) as nat)
            &&& supported_runs(pb.n_runs as nat)
            &&& pb.matrix@.len() == pb.n_runs
            &&& forall|i: int| 0 <= i < pb.n_runs ==> (#[trigger] pb.matrix@[i])@.len() == dim
            &&& forall|i: int, j: int|
                0 <= i < pb.n_runs && 0 <= j < dim ==> (#[trigger] pb.matrix@[i]@[j]) as int == pb_entry(
                    pb.n_runs as nat,
                    i,
                    j,
                )
        },
{
    if dim == 0 {
        return Err(PbError::ZeroDim);
    }
    if dim > 23 {
        return Err(PbError::DimTooLarge(dim));
    }
    let n = next_multiple_of_4(dim + 1);
    assert(supported_runs(n as nat));
    let gen = generating_vector(n);
    let mut matrix: Vec<Vec<i8>> = Vec::new();
    let mut i: usize = 0;
    while i < n
        invariant
            1 <= dim <= 23,
            n == next_multiple_of_4_spec((dim + 1) as nat),
            dim + 1 <= n <= 24,
            n % 4 == 0,
            forall|t: int| 0 <= t < n - 1 ==> gen@[t] as int == #[trigger] generator(n as nat)[t],
            gen@.len() == n - 1,
            i <= n,
            matrix@.len() == i,
            forall|a: int| 0 <= a < i ==> (#[trigger] matrix@[a])@.len() == dim,
            forall|a: int, j: int|
                0 <= a < i && 0 <= j < dim ==> (#[trigger] matrix@[a]@[j]) as int == pb_entry(n as nat, a, j),
        decreases n - i,
    {
        let mut row: Vec<i8> = Vec::new();
        let mut j: usize = 0;
        while j < dim
            invariant
                1 <= dim <= 23,
                dim + 1 <= n <= 24,
                forall|t: int| 0 <= t < n - 1 ==> gen@[t] as int == #[trigger] generator(n as nat)[t],
                gen@.len() == n - 1,
                i < n,
                j <= dim,
                row@.len() == j,
                forall|b: int| 0 <= b < j ==> (#[trigger] row@[b]) as int == pb_entry(n as nat, i as int, b),
            decreases dim - j,
        {
            if i == n - 1 {
                row.push(-1);
            } else {
                row.push(gen[(j + i) % (n - 1)]);
            }
            j = j + 1;
        }
        matrix.push(row);
        i = i + 1;
    }
    Ok(PlackettBurmanDesign { matrix, n_runs: n, dim })
}


/// `f(0) + … + f(n − 1)`.
pub open spec fn sum_upto(f: spec_fn(int) -> int, n: nat) -> int
    decreases n,
{
    if n == 0 {
        0
    } else {
        sum_upto(f, (n - 1) as nat) + f(n - 1)
    }
}

/// Pointwise-equal summands give equal sums.
pub proof fn lemma_sum_upto_ext(f: spec_fn(int) -> int, g: spec_fn(int) -> int, n: nat)
    requires
        forall|i: int| 0 <= i < n ==> #[trigger] f(i) == g(i),
    ensures
        sum_upto(f, n) == sum_upto(g, n),
    decreases n,
{
    if n > 0 {
        lemma_sum_upto_ext(f, g, (n - 1) as nat);
    }
}

/// Peeling off the first summand: `Σ_{i<n+1} f(i) = f(0) + Σ_{i<n} f(i + 1)`.
pub proof fn lemma_sum_upto_first(f: spec_fn(int) -> int, n: nat)
    ensures
        sum_upto(f, n + 1) == f(0) + sum_upto(|i: int| f(i + 1), n),
    decreases n,
{
    let h = |i: int| f(i + 1);
    if n > 0 {
        lemma_sum_upto_first(f, (n - 1) as nat);
        assert(sum_upto(h, n) == sum_upto(h, (n - 1) as nat) + h(n - 1));
        assert(sum_upto(f, n + 1) == sum_upto(f, n) + f(n as int));
    } else {
        assert(sum_upto(f, 1) == sum_upto(f, 0) + f(0));
        assert(sum_upto(h, 0) == 0);
    }
}

/// A cyclic sum is invariant under rotation by one.
pub proof fn lemma_cyclic_rotate_one(f: spec_fn(int) -> int, m: nat)
    requires
        m >= 1,
    ensures
        sum_upto(|i: int| f((i + 1) % (m as int)), m) == sum_upto(f, m),
{
    let g = |i: int| f((i + 1) % (m as int));
    // Σ_{i<m} g(i) = Σ_{i<m−1} f(i + 1) + f(0).
    let h = |i: int| f(i + 1);
    assert forall|i: int| 0 <= i < m - 1 implies #[trigger] g(i) == h(i) by {
        assert((i + 1) % (m as int) == i + 1) by (nonlinear_arith)
            requires
                0 <= i + 1 < m,
        ;
    }
    lemma_sum_upto_ext(g, h, (m - 1) as nat);
    assert(g(m - 1) == f(0)) by {
        assert(((m - 1) + 1) % (m as int) == 0) by (nonlinear_arith)
            requires
                m >= 1,
        ;
    }
    assert(sum_upto(g, m) == sum_upto(g, (m - 1) as nat) + g(m - 1));
    lemma_sum_upto_first(f, (m - 1) as nat);
}

/// A cyclic sum is invariant under rotation by any `j`.
pub proof fn lemma_cyclic_rotate(f: spec_fn(int) -> int, m: nat, j: nat)
    requires
        m >= 1,
    ensures
        sum_upto(|i: int| f((i + j) % (m as int)), m) == sum_upto(f, m),
    decreases j,
{
    if j == 0 {
        let g = |i: int| f((i + j) % (m as int));
        assert forall|i: int| 0 <= i < m implies #[trigger] g(i) == f(i) by {
            assert((i + j) % (m as int) == i) by (nonlinear_arith)
                requires
                    0 <= i < m,
                    j == 0,
            ;
        }
        lemma_sum_upto_ext(g, f, m);
    } else {
        let jm = (j - 1) as nat;
        lemma_cyclic_rotate(f, m, jm);
        let g = |i: int| f((i + jm) % (m as int));
        lemma_cyclic_rotate_one(g, m);
        assert forall|i: int| 0 <= i < m implies #[trigger] g((i + 1) % (m as int)) == f(
            (i + j) % (m as int),
        ) by {
            lemma_mod_add_mod(i + 1, jm as int, m as int);
        }
        lemma_sum_upto_ext(
            |i: int| g((i + 1) % (m as int)),
            |i: int| f((i + j) % (m as int)),
            m,
        );
    }
}

/// `((a mod m) + b) mod m = (a + b) mod m`.
pub proof fn lemma_mod_add_mod(a: int, b: int, m: int)
    requires
        m >= 1,
    ensures
        ((a % m) + b) % m == (a + b) % m,
{
    vstd::arithmetic::div_mod::lemma_add_mod_noop(a, b, m);
    vstd::arithmetic::div_mod::lemma_add_mod_noop(a % m, b, m);
    vstd::arithmetic::div_mod::lemma_mod_twice(a, m);
}

/// Cyclic autocorrelation of the `n`-run generator at lag `lag`.
pub open spec fn autocorrelation(n: nat, lag: int) -> int {
    let m = (n - 1) as nat;
    sum_upto(|t: int| generator(n)[t] * generator(n)[(t + lag) % (m as int)], m)
}

/// Inner product of design columns `j` and `k` over the `n` runs.
pub open spec fn column_dot(n: nat, j: int, k: int) -> int {
    sum_upto(|i: int| pb_entry(n, i, j) * pb_entry(n, i, k), n)
}

/// Run counts with a generating vector.
pub open spec fn supported_runs(n: nat) -> bool {
    n == 4 || n == 8 || n == 12 || n == 16 || n == 20 || n == 24
}

/// The 4-run generator has entries ±1 and cyclic autocorrelation −1 at
/// every non-zero lag.
pub proof fn lemma_generator_4()
    ensures
        forall|t: int| 0 <= t < 3 ==> #[trigger] generator(4)[t] == 1 || generator(4)[t] == -1,
        forall|lag: int| 1 <= lag < 3 ==> #[trigger] autocorrelation(4, lag) == -1,
{
    assert(generator(4).len() == 3);
    assert(generator(4)[0] == 1);
    assert(generator(4)[1] == -1);
    assert(generator(4)[2] == 1);
    assert(autocorrelation(4, 1) == -1) by {
        reveal_with_fuel(sum_upto, 4);
    }
    assert(autocorrelation(4, 2) == -1) by {
        reveal_with_fuel(sum_upto, 4);
    }
}

/// The 8-run generator has entries ±1 and cyclic autocorrelation −1 at
/// every non-zero lag.
pub proof fn lemma_generator_8()
    ensures
        forall|t: int| 0 <= t < 7 ==> #[trigger] generator(8)[t] == 1 || generator(8)[t] == -1,
        forall|lag: int| 1 <= lag < 7 ==> #[trigger] autocorrelation(8, lag) == -1,
{
    assert(generator(8).len() == 7);
    assert(generator(8)[0] == 1);
    assert(generator(8)[1] == 1);
    assert(generator(8)[2] == 1);
    assert(generator(8)[3] == -1);
    assert(generator(8)[4] == 1);
    assert(generator(8)[5] == -1);
    assert(generator(8)[6] == -1);
    assert(autocorrelation(8, 1) == -1) by {
        reveal_with_fuel(sum_upto, 8);
    }
    assert(autocorrelation(8, 2) == -1) by {
        reveal_with_fuel(sum_upto, 8);
    }
    assert(autocorrelation(8, 3) == -1) by {
        reveal_with_fuel(sum_upto, 8);
    }
    assert(autocorrelation(8, 4) == -1) by {
        reveal_with_fuel(sum_upto, 8);
    }
    assert(autocorrelation(8, 5) == -1) by {
        reveal_with_fuel(sum_upto, 8);
    }
    assert(autocorrelation(8, 6) == -1) by {
        reveal_with_fuel(sum_upto, 8);
    }
}

/// The 12-run generator has entries ±1 and cyclic autocorrelation −1 at
/// every non-zero lag.
pub proof fn lemma_generator_12()
    ensures
        forall|t: int| 0 <= t < 11 ==> #[trigger] generator(12)[t] == 1 || generator(12)[t] == -1,
        forall|lag: int| 1 <= lag < 11 ==> #[trigger] autocorrelation(12, lag) == -1,
{
    assert(generator(12).len() == 11);
    assert(generator(12)[0] == 1);
    assert(generator(12)[1] == 1);
    assert(generator(12)[2] == -1);
    assert(generator(12)[3] == 1);
    assert(generator(12)[4] == 1);
    assert(generator(12)[5] == 1);
    assert(generator(12)[6] == -1);
    assert(generator(12)[7] == -1);
    assert(generator(12)[8] == -1);
    assert(generator(12)[9] == 1);
    assert(generator(12)[10] == -1);
    assert(autocorrelation(12, 1) == -1) by {
        reveal_with_fuel(sum_upto, 12);
    }
    assert(autocorrelation(12, 2) == -1) by {
        reveal_with_fuel(sum_upto, 12);
    }
    assert(autocorrelation(12, 3) == -1) by {
        reveal_with_fuel(sum_upto, 12);
    }
    assert(autocorrelation(12, 4) == -1) by {
        reveal_with_fuel(sum_upto, 12);
    }
    assert(autocorrelation(12, 5) == -1) by {
        reveal_with_fuel(sum_upto, 12);
    }
    assert(autocorrelation(12, 6) == -1) by {
        reveal_with_fuel(sum_upto, 12);
    }
    assert(autocorrelation(12, 7) == -1) by {
        reveal_with_fuel(sum_upto, 12);
    }
    assert(autocorrelation(12, 8) == -1) by {
        reveal_with_fuel(sum_upto, 12);
    }
    assert(autocorrelation(12, 9) == -1) by {
        reveal_with_fuel(sum_upto, 12);
    }
    assert(autocorrelation(12, 10) == -1) by {
        reveal_with_fuel(sum_upto, 12);
    }
}

/// The 16-run generator has entries ±1 and cyclic autocorrelation −1 at
/// every non-zero lag.
pub proof fn lemma_generator_16()
    ensures
        forall|t: int| 0 <= t < 15 ==> #[trigger] generator(16)[t] == 1 || generator(16)[t] == -1,
        forall|lag: int| 1 <= lag < 15 ==> #[trigger] autocorrelation(16, lag) == -1,
{
    assert(generator(16).len() == 15);
    assert(generator(16)[0] == 1);
    assert(generator(16)[1] == 1);
    assert(generator(16)[2] == 1);
    assert(generator(16)[3] == 1);
    assert(generator(16)[4] == -1);
    assert(generator(16)[5] == 1);
    assert(generator(16)[6] == -1);
    assert(generator(16)[7] == 1);
    assert(generator(16)[8] == 1);
    assert(generator(16)[9] == -1);
    assert(generator(16)[10] == -1);
    assert(generator(16)[11] == 1);
    assert(generator(16)[12] == -1);
    assert(generator(16)[13] == -1);
    assert(generator(16)[14] == -1);
    assert(autocorrelation(16, 1) == -1) by {
        reveal_with_fuel(sum_upto, 16);
    }
    assert(autocorrelation(16, 2) == -1) by {
        reveal_with_fuel(sum_upto, 16);
    }
    assert(autocorrelation(16, 3) == -1) by {
        reveal_with_fuel(sum_upto, 16);
    }
    assert(autocorrelation(16, 4) == -1) by {
        reveal_with_fuel(sum_upto, 16);
    }
    assert(autocorrelation(16, 5) == -1) by {
        reveal_with_fuel(sum_upto, 16);
    }
    assert(autocorrelation(16, 6) == -1) by {
        reveal_with_fuel(sum_upto, 16);
    }
    assert(autocorrelation(16, 7) == -1) by {
        reveal_with_fuel(sum_upto, 16);
    }
    assert(autocorrelation(16, 8) == -1) by {
        reveal_with_fuel(sum_upto, 16);
    }
    assert(autocorrelation(16, 9) == -1) by {
        reveal_with_fuel(sum_upto, 16);
    }
    assert(autocorrelation(16, 10) == -1) by {
        reveal_with_fuel(sum_upto, 16);
    }
    assert(autocorrelation(16, 11) == -1) by {
        reveal_with_fuel(sum_upto, 16);
    }
    assert(autocorrelation(16, 12) == -1) by {
        reveal_with_fuel(sum_upto, 16);
    }
    assert(autocorrelation(16, 13) == -1) by {
        reveal_with_fuel(sum_upto, 16);
    }
    assert(autocorrelation(16, 14) == -1) by {
        reveal_with_fuel(sum_upto, 16);
    }
}

/// The 20-run generator has entries ±1 and cyclic autocorrelation −1 at
/// every non-zero lag.
pub proof fn lemma_generator_20()
    ensures
        forall|t: int| 0 <= t < 19 ==> #[trigger] generator(20)[t] == 1 || generator(20)[t] == -1,
        forall|lag: int| 1 <= lag < 19 ==> #[trigger] autocorrelation(20, lag) == -1,
{
    assert(generator(20).len() == 19);
    assert(generator(20)[0] == 1);
    assert(generator(20)[1] == 1);
    assert(generator(20)[2] == -1);
    assert(generator(20)[3] == 1);
    assert(generator(20)[4] == 1);
    assert(generator(20)[5] == -1);
    assert(generator(20)[6] == -1);
    assert(generator(20)[7] == -1);
    assert(generator(20)[8] == -1);
    assert(generator(20)[9] == 1);
    assert(generator(20)[10] == -1);
    assert(generator(20)[11] == 1);
    assert(generator(20)[12] == -1);
    assert(generator(20)[13] == 1);
    assert(generator(20)[14] == 1);
    assert(generator(20)[15] == 1);
    assert(generator(20)[16] == 1);
    assert(generator(20)[17] == -1);
    assert(generator(20)[18] == -1);
    assert(autocorrelation(20, 1) == -1) by {
        reveal_with_fuel(sum_upto, 20);
    }
    assert(autocorrelation(20, 2) == -1) by {
        reveal_with_fuel(sum_upto, 20);
    }
    assert(autocorrelation(20, 3) == -1) by {
        reveal_with_fuel(sum_upto, 20);
    }
    assert(autocorrelation(20, 4) == -1) by {
        reveal_with_fuel(sum_upto, 20);
    }
    assert(autocorrelation(20, 5) == -1) by {
        reveal_with_fuel(sum_upto, 20);
    }
    assert(autocorrelation(20, 6) == -1) by {
        reveal_with_fuel(sum_upto, 20);
    }
    assert(autocorrelation(20, 7) == -1) by {
        reveal_with_fuel(sum_upto, 20);
    }
    assert(autocorrelation(20, 8) == -1) by {
        reveal_with_fuel(sum_upto, 20);
    }
    assert(autocorrelation(20, 9) == -1) by {
        reveal_with_fuel(sum_upto, 20);
    }
    assert(autocorrelation(20, 10) == -1) by {
        reveal_with_fuel(sum_upto, 20);
    }
    assert(autocorrelation(20, 11) == -1) by {
        reveal_with_fuel(sum_upto, 20);
    }
    assert(autocorrelation(20, 12) == -1) by {
        reveal_with_fuel(sum_upto, 20);
    }
    assert(autocorrelation(20, 13) == -1) by {
        reveal_with_fuel(sum_upto, 20);
    }
    assert(autocorrelation(20, 14) == -1) by {
        reveal_with_fuel(sum_upto, 20);
    }
    assert(autocorrelation(20, 15) == -1) by {
        reveal_with_fuel(sum_upto, 20);
    }
    assert(autocorrelation(20, 16) == -1) by {
        reveal_with_fuel(sum_upto, 20);
    }
    assert(autocorrelation(20, 17) == -1) by {
        reveal_with_fuel(sum_upto, 20);
    }
    assert(autocorrelation(20, 18) == -1) by {
        reveal_with_fuel(sum_upto, 20);
    }
}

/// The 24-run generator has entries ±1 and cyclic autocorrelation −1 at
/// every non-zero lag.
#[verifier::rlimit(80)]
pub proof fn lemma_generator_24()
    ensures
        forall|t: int| 0 <= t < 23 ==> #[trigger] generator(24)[t] == 1 || generator(24)[t] == -1,
        forall|lag: int| 1 <= lag < 23 ==> #[trigger] autocorrelation(24, lag) == -1,
{
    assert(generator(24).len() == 23);
    assert(generator(24)[0] == 1);
    assert(generator(24)[1] == 1);
    assert(generator(24)[2] == 1);
    assert(generator(24)[3] == 1);
    assert(generator(24)[4] == 1);
    assert(generator(24)[5] == -1);
    assert(generator(24)[6] == 1);
    assert(generator(24)[7] == -1);
    assert(generator(24)[8] == 1);
    assert(generator(24)[9] == 1);
    assert(generator(24)[10] == -1);
    assert(generator(24)[11] == -1);
    assert(generator(24)[12] == 1);
    assert(generator(24)[13] == 1);
    assert(generator(24)[14] == -1);
    assert(generator(24)[15] == -1);
    assert(generator(24)[16] == 1);
    assert(generator(24)[17] == -1);
    assert(generator(24)[18] == 1);
    assert(generator(24)[19] == -1);
    assert(generator(24)[20] == -1);
    assert(generator(24)[21] == -1);
    assert(generator(24)[22] == -1);
    assert(autocorrelation(24, 1) == -1) by {
        reveal_with_fuel(sum_upto, 24);
    }
    assert(autocorrelation(24, 2) == -1) by {
        reveal_with_fuel(sum_upto, 24);
    }
    assert(autocorrelation(24, 3) == -1) by {
        reveal_with_fuel(sum_upto, 24);
    }
    assert(autocorrelation(24, 4) == -1) by {
        reveal_with_fuel(sum_upto, 24);
    }
    assert(autocorrelation(24, 5) == -1) by {
        reveal_with_fuel(sum_upto, 24);
    }
    assert(autocorrelation(24, 6) == -1) by {
        reveal_with_fuel(sum_upto, 24);
    }
    assert(autocorrelation(24, 7) == -1) by {
        reveal_with_fuel(sum_upto, 24);
    }
    assert(autocorrelation(24, 8) == -1) by {
        reveal_with_fuel(sum_upto, 24);
    }
    assert(autocorrelation(24, 9) == -1) by {
        reveal_with_fuel(sum_upto, 24);
    }
    assert(autocorrelation(24, 10) == -1) by {
        reveal_with_fuel(sum_upto, 24);
    }
    assert(autocorrelation(24, 11) == -1) by {
        reveal_with_fuel(sum_upto, 24);
    }
    assert(autocorrelation(24, 12) == -1) by {
        reveal_with_fuel(sum_upto, 24);
    }
    assert(autocorrelation(24, 13) == -1) by {
        reveal_with_fuel(sum_upto, 24);
    }
    assert(autocorrelation(24, 14) == -1) by {
        reveal_with_fuel(sum_upto, 24);
    }
    assert(autocorrelation(24, 15) == -1) by {
        reveal_with_fuel(sum_upto, 24);
    }
    assert(autocorrelation(24, 16) == -1) by {
        reveal_with_fuel(sum_upto, 24);
    }
    assert(autocorrelation(24, 17) == -1) by {
        reveal_with_fuel(sum_upto, 24);
    }
    assert(autocorrelation(24, 18) == -1) by {
        reveal_with_fuel(sum_upto, 24);
    }
    assert(autocorrelation(24, 19) == -1) by {
        reveal_with_fuel(sum_upto, 24);
    }
    assert(autocorrelation(24, 20) == -1) by {
        reveal_with_fuel(sum_upto, 24);
    }
    assert(autocorrelation(24, 21) == -1) by {
        reveal_with_fuel(sum_upto, 24);
    }
    assert(autocorrelation(24, 22) == -1) by {
        reveal_with_fuel(sum_upto, 24);
    }
}


/// Generator facts for every supported run count.
pub proof fn lemma_generator_facts(n: nat)
    requires
        supported_runs(n),
    ensures
        generator(n).len() == n - 1,
        forall|t: int| 0 <= t < n - 1 ==> #[trigger] generator(n)[t] == 1 || generator(n)[t] == -1,
        forall|lag: int| 1 <= lag < n - 1 ==> #[trigger] autocorrelation(n, lag) == -1,
{
    if n == 4 {
        lemma_generator_4();
    } else if n == 8 {
        lemma_generator_8();
    } else if n == 12 {
        lemma_generator_12();
    } else if n == 16 {
        lemma_generator_16();
    } else if n == 20 {
        lemma_generator_20();
    } else {
        lemma_generator_24();
    }
}

/// `Σ_{i<n} 1 = n`.
pub proof fn lemma_sum_upto_ones(n: nat)
    ensures
        sum_upto(|i: int| 1int, n) == n,
    decreases n,
{
    if n > 0 {
        lemma_sum_upto_ones((n - 1) as nat);
    }
}

/// Main-effect columns of a Plackett–Burman design are orthogonal and each
/// has squared norm `N`: `XᵀX = N·I` over the columns `0..N − 1`.
pub proof fn law_plackett_burman_orthogonal(n: nat, j: int, k: int)
    requires
        supported_runs(n),
        0 <= j < n - 1,
        0 <= k < n - 1,
    ensures
        column_dot(n, j, k) == if j == k {
            n as int
        } else {
            0
        },
        forall|i: int| 0 <= i < n ==> #[trigger] pb_entry(n, i, j) == 1 || pb_entry(n, i, j) == -1,
{
    lemma_generator_facts(n);
    let m = (n - 1) as nat;
    let mi = m as int;
    let g = generator(n);
    assert forall|i: int| 0 <= i < n implies #[trigger] pb_entry(n, i, j) == 1 || pb_entry(n, i, j) == -1 by {
        if i < mi {
            assert(0 <= (i + j) % mi < mi) by (nonlinear_arith)
                requires
                    mi >= 1,
            ;
        }
    }
    let f = |i: int| pb_entry(n, i, j) * pb_entry(n, i, k);
    assert(column_dot(n, j, k) == sum_upto(f, m) + f(mi));
    assert(f(mi) == 1);
    if j == k {
        assert forall|i: int| 0 <= i < m implies #[trigger] f(i) == (|i: int| 1int)(i) by {
            assert(0 <= (i + j) % mi < mi) by (nonlinear_arith)
                requires
                    mi >= 1,
            ;
            let e = g[(i + j) % mi];
            assert(e == 1 || e == -1);
            assert(e * e == 1) by (nonlinear_arith)
                requires
                    e == 1 || e == -1,
            ;
        }
        lemma_sum_upto_ext(f, |i: int| 1int, m);
        lemma_sum_upto_ones(m);
    } else {
        // Reduce to the autocorrelation at lag (k − j) mod m by rotation.
        let lag = if k > j {
            k - j
        } else {
            k - j + mi
        };
        assert(1 <= lag < mi);
        let h = |t: int| g[t] * g[(t + lag) % mi];
        assert forall|i: int| 0 <= i < m implies #[trigger] f(i) == (|i: int| h((i + j) % mi))(i) by {
            lemma_mod_add_mod(i + j, lag, mi);
            assert((i + j + lag) % mi == (i + k) % mi) by {
                if k > j {
                } else {
                    vstd::arithmetic::div_mod::lemma_mod_add_multiples_vanish(i + k, mi);
                }
            }
        }
        lemma_sum_upto_ext(f, |i: int| h((i + j) % mi), m);
        lemma_cyclic_rotate(h, m, j as nat);
        assert(autocorrelation(n, lag) == sum_upto(h, m));
    }
}

/// Each generating vector has one more `+1` than `−1`: its entries sum
/// to 1.
proof fn lemma_generator_sum(n: nat)
    requires
        supported_runs(n),
    ensures
        sum_upto(|t: int| generator(n)[t], (n - 1) as nat) == 1,
{
    if n == 4 {
        assert(sum_upto(|t: int| generator(4)[t], 3) == 1) by {
            reveal_with_fuel(sum_upto, 4);
        }
    } else if n == 8 {
        assert(sum_upto(|t: int| generator(8)[t], 7) == 1) by {
            reveal_with_fuel(sum_upto, 8);
        }
    } else if n == 12 {
        assert(sum_upto(|t: int| generator(12)[t], 11) == 1) by {
            reveal_with_fuel(sum_upto, 12);
        }
    } else if n == 16 {
        assert(sum_upto(|t: int| generator(16)[t], 15) == 1) by {
            reveal_with_fuel(sum_upto, 16);
        }
    } else if n == 20 {
        assert(sum_upto(|t: int| generator(20)[t], 19) == 1) by {
            reveal_with_fuel(sum_upto, 20);
        }
    } else {
        assert(sum_upto(|t: int| generator(24)[t], 23) == 1) by {
            reveal_with_fuel(sum_upto, 24);
        }
    }
}

/// Every main-effect column of a Plackett–Burman design is balanced: over
/// the `N` runs it holds as many `+1` as `−1`, so it sums to 0 and is
/// orthogonal to the intercept column. The last run sets every factor to
/// `−1`, which offsets the one surplus `+1` of the generating vector.
pub proof fn law_plackett_burman_balanced(n: nat, j: int)
    requires
        supported_runs(n),
        0 <= j < n - 1,
    ensures
        sum_upto(|i: int| pb_entry(n, i, j), n) == 0,
        forall|jj: int| 0 <= jj < n - 1 ==> #[trigger] pb_entry(n, (n - 1) as int, jj) == -1,
{
    let m = (n - 1) as nat;
    let mi = m as int;
    let g = |t: int| generator(n)[t];
    let f = |i: int| pb_entry(n, i, j);
    lemma_generator_sum(n);
    assert forall|i: int| 0 <= i < m implies #[trigger] f(i) == (|i: int| g((i + j) % mi))(i) by {}
    lemma_sum_upto_ext(f, |i: int| g((i + j) % mi), m);
    lemma_cyclic_rotate(g, m, j as nat);
    assert(sum_upto(f, n) == sum_upto(f, m) + f(mi));
}

} // verus!
