//! Binomial coefficients and the identities the enumeration counts rest on.

use vstd::prelude::*;

verus! {

/// `C(n, k)`, defined by Pascal's rule.
pub open spec fn binomial(n: nat, k: nat) -> nat
    decreases n,
{
    if k == 0 {
        1
    } else if n == 0 {
        0
    } else {
        binomial((n - 1) as nat, (k - 1) as nat) + binomial((n - 1) as nat, k)
    }
}

/// `C(n, k) = 0` when `k > n`.
pub proof fn lemma_binomial_zero_above(n: nat, k: nat)
    requires
        k > n,
    ensures
        binomial(n, k) == 0,
    decreases n,
{
    if n > 0 {
        lemma_binomial_zero_above((n - 1) as nat, (k - 1) as nat);
        lemma_binomial_zero_above((n - 1) as nat, k);
    }
}

/// `C(n, n) = 1`.
pub proof fn lemma_binomial_diagonal(n: nat)
    ensures
        binomial(n, n) == 1,
    decreases n,
{
    if n > 0 {
        lemma_binomial_diagonal((n - 1) as nat);
        lemma_binomial_zero_above((n - 1) as nat, n);
    }
}

/// The multiplicative step `C(n, k + 1) · (k + 1) = C(n, k) · (n − k)`.
pub proof fn lemma_binomial_step(n: nat, k: nat)
    requires
        k <= n,
    ensures
        binomial(n, k + 1) * (k + 1) == binomial(n, k) * (n - k),
    decreases n,
{
    if n == 0 {
        lemma_binomial_zero_above(0, 1);
    } else if k == n {
        lemma_binomial_zero_above(n, n + 1);
    } else {
        let m = (n - 1) as nat;
        // C(n, k+1) = C(m, k) + C(m, k+1) and C(m, k+1)(k+1) = C(m, k)(m-k).
        lemma_binomial_step(m, k);
        assert(binomial(n, k + 1) == binomial(m, k) + binomial(m, k + 1));
        let a = binomial(m, k);
        let b = binomial(m, k + 1);
        assert(b * (k + 1) == a * (m - k));
        assert((a + b) * (k + 1) == a * (k + 1) + b * (k + 1)) by (nonlinear_arith);
        if k == 0 {
            assert(binomial(n, 0) == 1);
            assert(binomial(m, 0) == 1);
            assert(a == 1);
            assert((a + b) * (k + 1) == a * (k + 1) + a * (m - k));
            assert(a * (k + 1) + a * (m - k) == a * (n - k)) by (nonlinear_arith)
                requires
                    n == m + 1,
                    k == 0,
            ;
        } else {
            let km = (k - 1) as nat;
            // C(m, k) k = C(m, k-1)(m-k+1).
            lemma_binomial_step(m, km);
            let c = binomial(m, km);
            assert(a * k == c * (m - km));
            assert(binomial(n, k) == c + a);
            // target: (a + b)(k + 1) == (c + a)(n - k)
            assert((a + b) * (k + 1) == a * (k + 1) + a * (m - k));
            assert(a * (k + 1) + a * (m - k) == a * (n - k) + a * k) by (nonlinear_arith)
                requires
                    n == m + 1,
                    k <= m,
            ;
            assert(c * (m - km) == c * (n - k)) by (nonlinear_arith)
                requires
                    n == m + 1,
                    km + 1 == k,
            ;
            assert((c + a) * (n - k) == c * (n - k) + a * (n - k)) by (nonlinear_arith);
        }
    }
}

/// Symmetry `C(n, k) = C(n, n − k)`.
pub proof fn lemma_binomial_symmetric(n: nat, k: nat)
    requires
        k <= n,
    ensures
        binomial(n, k) == binomial(n, (n - k) as nat),
    decreases n,
{
    if k == 0 {
        lemma_binomial_diagonal(n);
    } else if k == n {
        lemma_binomial_diagonal(n);
    } else {
        let m = (n - 1) as nat;
        lemma_binomial_symmetric(m, (k - 1) as nat);
        lemma_binomial_symmetric(m, k);
        assert(binomial(n, (n - k) as nat) == binomial(m, (n - k - 1) as nat) + binomial(
            m,
            (n - k) as nat,
        ));
    }
}

/// `C(n, i) ≤ C(n, j)` for `i ≤ j ≤ n − j`: the coefficients grow up to the
/// middle of the row.
pub proof fn lemma_binomial_monotone(n: nat, i: nat, j: nat)
    requires
        i <= j,
        j + j <= n,
    ensures
        binomial(n, i) <= binomial(n, j),
    decreases j - i,
{
    if i < j {
        lemma_binomial_monotone(n, i + 1, j);
        lemma_binomial_step(n, i);
        let a = binomial(n, i);
        let b = binomial(n, i + 1);
        assert(a <= b) by (nonlinear_arith)
            requires
                b * (i + 1) == a * (n - i),
                i + 1 <= n - i,
        ;
    }
}

/// `C(n, k) ≥ 1` for `k ≤ n`.
pub proof fn lemma_binomial_positive(n: nat, k: nat)
    requires
        k <= n,
    ensures
        binomial(n, k) >= 1,
    decreases n,
{
    if k > 0 && n > 0 {
        if k == n {
            lemma_binomial_diagonal(n);
        } else {
            lemma_binomial_positive((n - 1) as nat, k);
        }
    }
}

/// `n!`.
pub open spec fn factorial(n: nat) -> nat
    decreases n,
{
    if n == 0 {
        1
    } else {
        n * factorial((n - 1) as nat)
    }
}

/// `C(n, k) · k! · (n − k)! = n!` for `k ≤ n`.
pub proof fn lemma_binomial_factorial(n: nat, k: nat)
    requires
        k <= n,
    ensures
        binomial(n, k) * factorial(k) * factorial((n - k) as nat) == factorial(n),
    decreases n,
{
    if n == 0 {
    } else if k == 0 {
        assert(binomial(n, 0) == 1);
        assert(factorial(0) == 1);
        assert(factorial(n) * 1 == factorial(n));
    } else if k == n {
        lemma_binomial_diagonal(n);
        assert(factorial(0) == 1);
        assert(1 * factorial(n) * 1 == factorial(n)) by (nonlinear_arith);
    } else {
        let n1 = (n - 1) as nat;
        let k1 = (k - 1) as nat;
        lemma_binomial_factorial(n1, k1);
        lemma_binomial_factorial(n1, k);
        let b1 = binomial(n1, k1);
        let b2 = binomial(n1, k);
        let fk1 = factorial(k1);
        let fk = factorial(k);
        let fnk = factorial((n - k) as nat);
        let fnk1 = factorial((n1 - k) as nat);
        let fn1 = factorial(n1);
        assert(binomial(n, k) == b1 + b2);
        assert(fk == k * fk1);
        assert((n - k) as nat == ((n1 - k) as nat + 1) as nat);
        assert(fnk == (n - k) * fnk1);
        assert(((n1 - k1) as nat) == (n - k) as nat);
        assert(b1 * fk1 * fnk == fn1);
        assert(b2 * fk * fnk1 == fn1);
        assert(factorial(n) == n * fn1);
        assert((b1 + b2) * fk * fnk == n * fn1) by (nonlinear_arith)
            requires
                fk == k * fk1,
                fnk == (n - k) * fnk1,
                b1 * fk1 * fnk == fn1,
                b2 * fk * fnk1 == fn1,
                k <= n,
        ;
    }
}

} // verus!
