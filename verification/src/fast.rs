//! FAST search-curve design (Saltelli–Tarantola–Chan 1999), integer part:
//! argument validation, frequency assignment and phase draws.
//!
//! For factor-of-interest `i`, factor `i` gets `ω_max = ⌊(N − 1) / (2M)⌋`
//! and the other `d − 1` factors get complementary frequencies bounded by
//! `m = ⌊ω_max / (2M)⌋`:
//!
//! ```text
//! m ≥ d − 1:  complementary[k] = round(linspace(1, m, d − 1)[k])
//! m < d − 1:  complementary[k] = (k mod m) + 1
//! ```
//!
//! The rounding is computed exactly on integers,
//! `round(a / b) = ⌊(2a + b) / (2b)⌋` for `a, b ≥ 0`, `b > 0` (halves round
//! up, as `f64::round` does on non-negative values).
//!
//! Each phase is drawn as one 64-bit word `w`; its unit value is
//! `(w >> 11) / 2⁵³` and the phase `2π` times that.

use vstd::prelude::*;

use crate::rng::{chacha20_double_word, RngState};

verus! {

/// Errors from [`build_fast_design`].
#[derive(Debug, Clone, Copy, PartialEq, Eq, Structural)]
#[non_exhaustive]
pub enum FastError {
    /// `d` was 0.
    ZeroD,
    /// `harmonic` was 0.
    ZeroHarmonic,
    /// `n_per_factor < 4·harmonic² + 1`.
    InsufficientSamples { n_per_factor: usize, harmonic: u32, minimum: usize },
}

/// Complementary-frequency budget `m = ⌊ω_max / (2M)⌋`.
pub open spec fn bandwidth(omega_max: u32, harmonic: u32) -> nat {
    (omega_max as int / (2 * harmonic as int)) as nat
}

/// The `d − 1` complementary frequencies of Saltelli 1999 § 3.2.
pub open spec fn complementary_spec(d: nat, omega_max: u32, harmonic: u32) -> Seq<u32> {
    let c = (d - 1) as nat;
    let m = bandwidth(omega_max, harmonic);
    if d <= 1 {
        Seq::empty()
    } else if m >= c {
        if c == 1 {
            seq![1u32]
        } else {
            Seq::new(
                c,
                |k: int| (1 + (2 * k * (m - 1) + (c - 1)) / (2 * (c - 1) as int)) as u32,
            )
        }
    } else {
        Seq::new(c, |k: int| (((k as u32) as nat % m) + 1) as u32)
    }
}

/// Complementary frequencies: `d − 1` values, linearly spaced over `1..=m`
/// when `m ≥ d − 1`, else cycling through `1..=m`.
pub fn complementary_frequencies(d: usize, omega_max: u32, harmonic: u32) -> (r: Vec<u32>)
    requires
        1 <= harmonic,
        2 * harmonic <= u32::MAX,
        d <= 1 || bandwidth(omega_max, harmonic) >= 1,
    ensures
        r@ == complementary_spec(d as nat, omega_max, harmonic),
{
    if d <= 1 {
        return Vec::new();
    }
    let comp_count = d - 1;
    let m = omega_max / (2 * harmonic);
    let mut result: Vec<u32> = Vec::new();
    let ghost spec = complementary_spec(d as nat, omega_max, harmonic);
    if (m as usize) >= comp_count {
        if comp_count == 1 {
            result.push(1);
            assert(result@ =~= spec);
        } else {
            let denom: u128 = (comp_count - 1) as u128;
            let mut k: usize = 0;
            while k < comp_count
                invariant
                    comp_count == d - 1,
                    comp_count >= 2,
                    (m as usize) >= comp_count,
                    m == bandwidth(omega_max, harmonic),
                    denom == comp_count - 1,
                    k <= comp_count,
                    spec == complementary_spec(d as nat, omega_max, harmonic),
                    result@ == spec.subrange(0, k as int),
                decreases comp_count - k,
            {
                proof {
                    assert(2 * k * (m - 1) <= 2 * (u64::MAX as int) * (u32::MAX as int)) by (nonlinear_arith)
                        requires
                            k <= u64::MAX,
                            m - 1 <= u32::MAX,
                            m >= 1,
                    ;
                }
                let num: u128 = 2 * (k as u128) * ((m - 1) as u128) + denom;
                let q: u128 = num / (2 * denom);
                proof {
                    assert(q <= m - 1) by (nonlinear_arith)
                        requires
                            q == (2 * k * (m - 1) + denom) / (2 * denom),
                            k <= denom,
                            denom >= 1,
                            m >= 1,
                    ;
                    assert(spec[k as int] == (1 + q) as u32);
                }
                result.push((1 + q) as u32);
                assert(result@ =~= spec.subrange(0, k as int + 1));
                k = k + 1;
            }
            assert(result@ =~= spec);
        }
    } else {
        let mut k: usize = 0;
        while k < comp_count
            invariant
                comp_count == d - 1,
                (m as usize) < comp_count,
                m == bandwidth(omega_max, harmonic),
                m >= 1,
                k <= comp_count,
                spec == complementary_spec(d as nat, omega_max, harmonic),
                result@ == spec.subrange(0, k as int),
            decreases comp_count - k,
        {
            let v = ((k as u32) % m) + 1;
            result.push(v);
            assert(result@ =~= spec.subrange(0, k as int + 1));
            k = k + 1;
        }
        assert(result@ =~= spec);
    }
    result
}

/// Frequencies and phase words of a FAST design.
#[derive(Debug, Clone)]
#[non_exhaustive]
pub struct FastFrequencies {
    /// `omegas[i][j]`: frequency of factor `j` when `i` is the factor of
    /// interest.
    pub omegas: Vec<Vec<u32>>,
    /// `phase_words[i][j]`: the 53-bit word whose unit value `w / 2⁵³`,
    /// times `2π`, is the phase of factor `j` in block `i`.
    pub phase_words: Vec<Vec<u64>>,
    /// Samples per factor of interest.
    pub n_per_factor: usize,
    /// Factor count.
    pub d: usize,
    /// Harmonic order `M`.
    pub harmonic: u32,
}

/// `ω_max = ⌊(N − 1) / (2M)⌋`, truncated to 32 bits.
pub open spec fn omega_max_of(n_per_factor: nat, harmonic: u32) -> u32 {
    (((n_per_factor - 1) as nat) / ((2 * harmonic) as nat)) as u32
}

/// Row `i` of the frequency matrix: `ω_max` at column `i`, the
/// complementary frequencies in order elsewhere.
pub open spec fn omega_row(comp: Seq<u32>, omega_max: u32, d: nat, i: int) -> Seq<u32> {
    Seq::new(
        d,
        |j: int|
            if j == i {
                omega_max
            } else if j < i {
                comp[j]
            } else {
                comp[j - 1]
            },
    )
}

/// Smallest admissible `n_per_factor`: `4·harmonic² + 1`.
pub open spec fn minimum_samples(harmonic: u32) -> nat {
    (4 * harmonic * harmonic + 1) as nat
}

/// Validates the arguments, assigns the frequencies and draws the `d²`
/// phase words (row-major) of a FAST design.
pub fn build_fast_design(d: usize, n_per_factor: usize, harmonic: u32, rng: &mut RngState) -> (r:
    Result<FastFrequencies, FastError>)
    requires
        d != 0 && harmonic != 0 ==> 4 * harmonic * harmonic + 1 <= usize::MAX,
        d != 0 && harmonic != 0 && n_per_factor >= minimum_samples(harmonic) ==> {
            &&& (n_per_factor - 1) / (2 * harmonic as int) <= u32::MAX
            &&& old(rng).word_pos + 2 * d * d <= u128::MAX
        },
    ensures
        d == 0 ==> r == Err::<FastFrequencies, FastError>(FastError::ZeroD),
        d != 0 && harmonic == 0 ==> r == Err::<FastFrequencies, FastError>(FastError::ZeroHarmonic),
        d != 0 && harmonic != 0 && n_per_factor < minimum_samples(harmonic) ==> r == Err::<
            FastFrequencies,
            FastError,
        >(
            FastError::InsufficientSamples {
                n_per_factor,
                harmonic,
                minimum: minimum_samples(harmonic) as usize,
            },
        ),
        d != 0 && harmonic != 0 && n_per_factor >= minimum_samples(harmonic) ==> r is Ok,
        r is Err ==> *final(rng) == *old(rng),
        r matches Ok(f) ==> {
            let omega_max = omega_max_of(n_per_factor as nat, harmonic);
            let comp = complementary_spec(d as nat, omega_max, harmonic);
            &&& d != 0 && harmonic != 0 && n_per_factor >= minimum_samples(harmonic)
            &&& f.n_per_factor == n_per_factor && f.d == d && f.harmonic == harmonic
            &&& f.omegas@.len() == d
            &&& forall|i: int| 0 <= i < d ==> (#[trigger] f.omegas@[i])@ == omega_row(comp, omega_max, d as nat, i)
            &&& f.phase_words@.len() == d
            &&& forall|i: int| 0 <= i < d ==> (#[trigger] f.phase_words@[i])@.len() == d
            &&& forall|i: int, j: int|
                0 <= i < d && 0 <= j < d ==> #[trigger] f.phase_words@[i]@[j] == chacha20_double_word(
                    old(rng).seed@,
                    old(rng).stream,
                    (old(rng).word_pos + 2 * (i * d + j)) as u128,
                ) >> 11u64
            &&& final(rng).seed == old(rng).seed && final(rng).stream == old(rng).stream
            &&& final(rng).word_pos == old(rng).word_pos + 2 * d * d
        },
{
    if d == 0 {
        return Err(FastError::ZeroD);
    }
    if harmonic == 0 {
        return Err(FastError::ZeroHarmonic);
    }
    proof {
        let h = harmonic as int;
        assert(4 * h <= 4 * h * h) by (nonlinear_arith)
            requires
                h >= 1,
        ;
    }
    let minimum = 4 * (harmonic as usize) * (harmonic as usize) + 1;
    if n_per_factor < minimum {
        return Err(FastError::InsufficientSamples { n_per_factor, harmonic, minimum });
    }
    proof {
        assert(2 * harmonic <= u32::MAX) by (nonlinear_arith)
            requires
                4 * harmonic * harmonic + 1 <= usize::MAX,
                usize::MAX <= u64::MAX,
                harmonic >= 1,
        ;
    }
    let omega_max = ((n_per_factor - 1) / (2 * harmonic as usize)) as u32;
    proof {
        // n ≥ 4M² + 1 gives ω_max ≥ 2M, hence m ≥ 1.
        let h = harmonic as int;
        let q = (n_per_factor - 1) as int / (2 * h);
        assert(q >= 2 * h) by (nonlinear_arith)
            requires
                n_per_factor - 1 >= 4 * h * h,
                h >= 1,
                q == (n_per_factor - 1) as int / (2 * h),
        ;
        assert(omega_max == q);
        assert(omega_max as int / (2 * harmonic as int) >= 1) by (nonlinear_arith)
            requires
                omega_max >= 2 * harmonic,
                harmonic >= 1,
        ;
    }
    let complementary = complementary_frequencies(d, omega_max, harmonic);
    let ghost start = rng.word_pos as int;
    let mut phase_words: Vec<Vec<u64>> = Vec::new();
    let mut i: usize = 0;
    while i < d
        invariant
            i <= d,
            start + 2 * d * d <= u128::MAX,
            rng.seed == old(rng).seed,
            rng.stream == old(rng).stream,
            start == old(rng).word_pos,
            rng.word_pos == start + 2 * (i * d),
            phase_words@.len() == i,
            forall|a: int| 0 <= a < i ==> (#[trigger] phase_words@[a])@.len() == d,
            forall|a: int, b: int|
                0 <= a < i && 0 <= b < d ==> #[trigger] phase_words@[a]@[b] == chacha20_double_word(
                    old(rng).seed@,
                    old(rng).stream,
                    (start + 2 * (a * d + b)) as u128,
                ) >> 11u64,
        decreases d - i,
    {
        let mut row: Vec<u64> = Vec::new();
        let mut j: usize = 0;
        while j < d
            invariant
                i < d,
                j <= d,
                start + 2 * d * d <= u128::MAX,
                rng.seed == old(rng).seed,
                rng.stream == old(rng).stream,
                rng.word_pos == start + 2 * (i * d + j),
                row@.len() == j,
                forall|b: int|
                    0 <= b < j ==> #[trigger] row@[b] == chacha20_double_word(
                        old(rng).seed@,
                        old(rng).stream,
                        (start + 2 * (i * d + b)) as u128,
                    ) >> 11u64,
            decreases d - j,
        {
            proof {
                assert(2 * (i * d + j) + 2 <= 2 * d * d) by (nonlinear_arith)
                    requires
                        i < d,
                        j < d,
                ;
            }
            let w = rng.next_u64();
            row.push(w >> 11);
            j = j + 1;
        }
        phase_words.push(row);
        assert(2 * ((i + 1) * d) == 2 * (i * d + d)) by (nonlinear_arith);
        i = i + 1;
    }
    assert(2 * (d * d) == 2 * d * d) by (nonlinear_arith);
    let mut omegas: Vec<Vec<u32>> = Vec::new();
    let mut i: usize = 0;
    while i < d
        invariant
            i <= d,
            complementary@ == complementary_spec(d as nat, omega_max, harmonic),
            complementary@.len() == d - 1,
            omegas@.len() == i,
            forall|a: int|
                0 <= a < i ==> (#[trigger] omegas@[a])@ == omega_row(
                    complementary@,
                    omega_max,
                    d as nat,
                    a,
                ),
        decreases d - i,
    {
        let mut row: Vec<u32> = Vec::new();
        let mut j: usize = 0;
        while j < d
            invariant
                i < d,
                j <= d,
                complementary@.len() == d - 1,
                row@ == omega_row(complementary@, omega_max, d as nat, i as int).subrange(0, j as int),
            decreases d - j,
        {
            if j == i {
                row.push(omega_max);
            } else if j < i {
                row.push(complementary[j]);
            } else {
                row.push(complementary[j - 1]);
            }
            assert(row@ =~= omega_row(complementary@, omega_max, d as nat, i as int).subrange(0, j as int + 1));
            j = j + 1;
        }
        assert(row@ =~= omega_row(complementary@, omega_max, d as nat, i as int));
        omegas.push(row);
        i = i + 1;
    }
    let f = FastFrequencies { omegas, phase_words, n_per_factor, d, harmonic };
    assert(rng.word_pos == old(rng).word_pos + 2 * d * d);
    assert(forall|i: int| 0 <= i < d ==> (#[trigger] f.phase_words@[i])@.len() == d);
    Ok(f)
}


/// Every complementary frequency lies in `1..=m`, `m = ⌊ω_max / (2M)⌋`;
/// in the linearly spaced regime (`m ≥ d − 1`) they strictly increase, so
/// no two coincide.
pub proof fn law_complementary_frequencies(d: nat, omega_max: u32, harmonic: u32)
    requires
        harmonic >= 1,
        d <= 1 || bandwidth(omega_max, harmonic) >= 1,
        d <= usize::MAX,
    ensures
        complementary_spec(d, omega_max, harmonic).len() == if d == 0 {
            0
        } else {
            (d - 1) as nat
        },
        forall|k: int|
            0 <= k < complementary_spec(d, omega_max, harmonic).len() ==> 1
                <= #[trigger] complementary_spec(d, omega_max, harmonic)[k] <= bandwidth(
                omega_max,
                harmonic,
            ),
        d >= 1 && bandwidth(omega_max, harmonic) >= d - 1 ==> forall|k: int, l: int|
            0 <= k < l < complementary_spec(d, omega_max, harmonic).len() ==> (
            #[trigger] complementary_spec(d, omega_max, harmonic)[k])
                < #[trigger] complementary_spec(d, omega_max, harmonic)[l],
{
    let comp = complementary_spec(d, omega_max, harmonic);
    let m = bandwidth(omega_max, harmonic);
    if d > 1 {
        let c = (d - 1) as nat;
        assert(m <= u32::MAX);
        if m >= c && c >= 2 {
            let b = (c - 1) as int;
            assert forall|k: int| 0 <= k < c implies 1 <= #[trigger] comp[k] <= m by {
                let q = (2 * k * (m - 1) + b) / (2 * b);
                assert(0 <= q <= m - 1) by (nonlinear_arith)
                    requires
                        q == (2 * k * (m - 1) + b) / (2 * b),
                        0 <= k <= b,
                        b >= 1,
                        m >= 1,
                ;
                assert(comp[k] == (1 + q) as u32);
            }
            assert forall|k: int, l: int| 0 <= k < l < c implies (#[trigger] comp[k]) < #[trigger] comp[l] by {
                let qk = (2 * k * (m - 1) + b) / (2 * b);
                let ql = (2 * l * (m - 1) + b) / (2 * b);
                assert(qk < ql) by (nonlinear_arith)
                    requires
                        qk == (2 * k * (m - 1) + b) / (2 * b),
                        ql == (2 * l * (m - 1) + b) / (2 * b),
                        0 <= k < l,
                        b >= 1,
                        m - 1 >= b,
                ;
                assert(0 <= qk && ql <= m - 1) by (nonlinear_arith)
                    requires
                        qk == (2 * k * (m - 1) + b) / (2 * b),
                        ql == (2 * l * (m - 1) + b) / (2 * b),
                        0 <= k < l <= b,
                        b >= 1,
                        m >= 1,
                ;
                assert(comp[k] == (1 + qk) as u32);
                assert(comp[l] == (1 + ql) as u32);
            }
        } else if m < c {
            assert forall|k: int| 0 <= k < c implies 1 <= #[trigger] comp[k] <= m by {
                let r = (k as u32) as nat % m;
                assert(r < m);
                assert(comp[k] == (r + 1) as u32);
            }
        }
    }
}

/// Within each block the factor of interest holds the strictly largest
/// frequency: `ω_max` on the diagonal, at most `⌊ω_max / (2M)⌋ < ω_max`
/// elsewhere.
pub proof fn law_factor_of_interest_dominates(d: nat, omega_max: u32, harmonic: u32, i: int, j: int)
    requires
        harmonic >= 1,
        omega_max >= 2 * harmonic,
        d <= usize::MAX,
        0 <= i < d,
        0 <= j < d,
        j != i,
    ensures
        omega_row(complementary_spec(d, omega_max, harmonic), omega_max, d, i)[j] <= bandwidth(
            omega_max,
            harmonic,
        ) < omega_max,
        omega_row(complementary_spec(d, omega_max, harmonic), omega_max, d, i)[i] == omega_max,
{
    assert(bandwidth(omega_max, harmonic) >= 1) by (nonlinear_arith)
        requires
            omega_max >= 2 * harmonic,
            harmonic >= 1,
            bandwidth(omega_max, harmonic) == (omega_max as int / (2 * harmonic as int)) as nat,
    ;
    assert(bandwidth(omega_max, harmonic) < omega_max) by (nonlinear_arith)
        requires
            omega_max >= 2 * harmonic,
            harmonic >= 1,
            bandwidth(omega_max, harmonic) == (omega_max as int / (2 * harmonic as int)) as nat,
    ;
    law_complementary_frequencies(d, omega_max, harmonic);
    let comp = complementary_spec(d, omega_max, harmonic);
    if j < i {
        assert(comp[j] <= bandwidth(omega_max, harmonic));
    } else {
        assert(comp[j - 1] <= bandwidth(omega_max, harmonic));
    }
}

/// The frequency matrix of every FAST design: in block `i` the factor of
/// interest gets `ω = ⌊(N − 1) / (2M)⌋` and every other factor one of the
/// complementary frequencies, in column order, each in `1..=m` with
/// `m = ⌊ω / (2M)⌋ < ω`; when `m ≥ d − 1` the off-diagonal entries of a
/// row are pairwise distinct. The matrix depends on `(d, N, M)` alone.
pub proof fn law_fast_frequency_matrix(d: nat, n_per_factor: nat, harmonic: u32, i: int, j: int, k: int)
    requires
        harmonic >= 1,
        n_per_factor >= minimum_samples(harmonic),
        (n_per_factor - 1) / (2 * harmonic as int) <= u32::MAX,
        d <= usize::MAX,
        0 <= i < d,
        0 <= j < d,
        0 <= k < d,
    ensures
        ({
            let omega = omega_max_of(n_per_factor, harmonic);
            let m = bandwidth(omega, harmonic);
            let comp = complementary_spec(d, omega, harmonic);
            let row = omega_row(comp, omega, d, i);
            &&& omega == (n_per_factor - 1) / (2 * harmonic as int)
            &&& row.len() == d
            &&& row[i] == omega
            &&& j != i ==> 1 <= row[j] <= m && m < omega
            &&& j < i ==> row[j] == comp[j]
            &&& j > i ==> row[j] == comp[j - 1]
            &&& m >= d - 1 && j != i && k != i && j != k ==> row[j] != row[k]
        }),
{
    let h = harmonic as int;
    let q = (n_per_factor - 1) / (2 * h);
    assert(q >= 2 * h) by (nonlinear_arith)
        requires
            q == (n_per_factor - 1) / (2 * h),
            n_per_factor >= 4 * h * h + 1,
            h >= 1,
    ;
    let omega = omega_max_of(n_per_factor, harmonic);
    assert(omega == q);
    assert(bandwidth(omega, harmonic) >= 1) by (nonlinear_arith)
        requires
            omega >= 2 * h,
            h >= 1,
            h == harmonic,
            bandwidth(omega, harmonic) == (omega as int / (2 * harmonic as int)) as nat,
    ;
    law_complementary_frequencies(d, omega, harmonic);
    let m = bandwidth(omega, harmonic);
    let comp = complementary_spec(d, omega, harmonic);
    let row = omega_row(comp, omega, d, i);
    if j != i {
        law_factor_of_interest_dominates(d, omega, harmonic, i, j);
        if j < i {
            assert(1 <= comp[j]);
        } else {
            assert(1 <= comp[j - 1]);
        }
    } else {
        assert(row[i] == omega);
    }
    if m >= d - 1 && j != i && k != i && j != k {
        let cj = if j < i {
            j
        } else {
            j - 1
        };
        let ck = if k < i {
            k
        } else {
            k - 1
        };
        assert(cj != ck);
        assert(row[j] == comp[cj] && row[k] == comp[ck]);
        if cj < ck {
            assert(comp[cj] < comp[ck]);
        } else {
            assert(comp[ck] < comp[cj]);
        }
    }
}

} // verus!
