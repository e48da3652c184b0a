//! Stratification of the Sobol' sequence: when every direction number
//! `v_i` is an odd multiple of `2^(32 − i)`, the first `2^m` points of a
//! dimension fall into `2^m` distinct intervals of width `2^−m`, one point
//! per interval.
//!
//! The proof writes the state of point `k` as the XOR of the direction
//! numbers selected by the bits of the Gray code `k ⊕ (k >> 1)`, and uses
//! that those direction numbers are triangular in their lowest set bits.

use vstd::prelude::*;

use crate::sobol::{direction_number, gray_state, pow2_nat, recurrence_fold, trailing_zero_count};

verus! {

/// The bits of `y` below position `q` (`q ≤ 32`) are all zero.
pub open spec fn clear_below(y: u32, q: u64) -> bool {
    q <= 32 && ((y as u64) >> q) << q == (y as u64)
}

/// `x` is an odd multiple of `2^p`: its lowest set bit is bit `p < 32`.
pub open spec fn odd_multiple_of_pow2(x: u32, p: u64) -> bool {
    p < 32 && clear_below(x, p) && ((x as u64) >> p) & 1 == 1
}

/// Direction numbers `v_1..v_m` have their lowest set bits at
/// `31, 30, …, 32 − m`.
pub open spec fn sobol_shaped(v: spec_fn(nat) -> u32, m: nat) -> bool {
    forall|i: nat| 1 <= i <= m ==> #[trigger] odd_multiple_of_pow2(v(i), (32 - i) as u64)
}

/// The Gray code of `k`.
pub open spec fn gray_code(k: u32) -> u32 {
    k ^ (k >> 1u32)
}

/// XOR of the direction numbers `v_{j+1}` over the set bits `j < b` of `c`.
pub open spec fn xor_combination(v: spec_fn(nat) -> u32, c: u32, b: nat) -> u32
    decreases b,
{
    if b == 0 {
        0
    } else {
        let prev = xor_combination(v, c, (b - 1) as nat);
        if (c >> ((b - 1) as u32)) & 1u32 == 1u32 {
            prev ^ v(b)
        } else {
            prev
        }
    }
}

proof fn bv_clear_below_xor(x: u32, y: u32, q: u64)
    requires
        clear_below(x, q),
        clear_below(y, q),
    ensures
        clear_below(x ^ y, q),
{
    assert(((x as u64) >> q) << q == (x as u64) && ((y as u64) >> q) << q == (y as u64) && q <= 32
        ==> (((x ^ y) as u64) >> q) << q == ((x ^ y) as u64)) by (bit_vector);
}

proof fn bv_clear_below_weaken(x: u32, q: u64, p: u64)
    requires
        clear_below(x, q),
        p <= q,
    ensures
        clear_below(x, p),
{
    assert(((x as u64) >> q) << q == (x as u64) && p <= q && q <= 32 ==> ((x as u64) >> p) << p
        == (x as u64)) by (bit_vector);
}

proof fn bv_shaped_clear_above(x: u32, q: u64, p: u64)
    requires
        odd_multiple_of_pow2(x, q),
        p < q,
    ensures
        clear_below(x, (p + 1) as u64),
{
    bv_clear_below_weaken(x, q, (p + 1) as u64);
}

proof fn bv_shaped_xor(x: u32, y: u32, p: u64)
    requires
        p < 32,
        odd_multiple_of_pow2(x, p),
        clear_below(y, (p + 1) as u64),
    ensures
        odd_multiple_of_pow2(x ^ y, p),
{
    assert(p < 32 && ((x as u64) >> p) << p == (x as u64) && ((x as u64) >> p) & 1 == 1 && ((y
        as u64) >> (p + 1)) << (p + 1) == (y as u64) ==> (((x ^ y) as u64) >> p) << p == ((x ^ y)
        as u64) && (((x ^ y) as u64) >> p) & 1 == 1) by (bit_vector);
}

proof fn bv_shaped_shift_xor(b: u32, p: u64, s: u64)
    requires
        p + s < 32,
        odd_multiple_of_pow2(b, (p + s) as u64),
        1 <= s,
    ensures
        odd_multiple_of_pow2((b >> (s as u32)) ^ b, p),
{
    let q: u64 = (p + s) as u64;
    let s32: u32 = s as u32;
    assert(q == p + s && s32 == s);
    let r: u32 = (b >> s32) ^ b;
    assert(q < 32 && q == p + s && s32 as u64 == s && 1 <= s && r == (b >> s32) ^ b && ((b as u64) >> q)
        << q == (b as u64) && ((b as u64) >> q) & 1 == 1 ==> ((r as u64) >> p) << p == (r as u64) && ((r
        as u64) >> p) & 1 == 1) by (bit_vector);
}

proof fn bv_shifted_odd(m: u32, i: u64)
    requires
        1 <= i <= 31,
        m & 1u32 == 1u32,
        m >> (i as u32) == 0u32,
    ensures
        odd_multiple_of_pow2(m << ((32 - i) as u32), (32 - i) as u64),
{
    assert(1 <= i <= 31 && m & 1u32 == 1u32 && m >> (i as u32) == 0u32 ==> (((m << ((32 - i) as u32))
        as u64) >> ((32 - i) as u64)) << ((32 - i) as u64) == ((m << ((32 - i) as u32)) as u64) && (((m
        << ((32 - i) as u32)) as u64) >> ((32 - i) as u64)) & 1 == 1) by (bit_vector);
}

proof fn bv_power_of_two_shaped(i: u64)
    requires
        1 <= i <= 32,
    ensures
        odd_multiple_of_pow2(1u32 << ((32 - i) as u32), (32 - i) as u64),
{
    assert(1 <= i <= 32 ==> (((1u32 << ((32 - i) as u32)) as u64) >> ((32 - i) as u64)) << ((32 - i)
        as u64) == ((1u32 << ((32 - i) as u32)) as u64) && (((1u32 << ((32 - i) as u32)) as u64) >> ((32
        - i) as u64)) & 1 == 1) by (bit_vector);
}

/// The first dimension's direction numbers `v_i = 2^(32 − i)` are shaped.
pub proof fn lemma_trivial_directions_shaped(v: spec_fn(nat) -> u32)
    requires
        forall|i: nat| 1 <= i <= 32 ==> #[trigger] v(i) == 1u32 << ((32 - i) as u32),
    ensures
        sobol_shaped(v, 32),
{
    assert forall|i: nat| 1 <= i <= 32 implies #[trigger] odd_multiple_of_pow2(v(i), (32 - i) as u64) by {
        bv_power_of_two_shaped(i as u64);
    }
}

/// `2^32`.
pub proof fn lemma_pow2_32()
    ensures
        pow2_nat(32) == 0x1_0000_0000,
{
    reveal_with_fuel(pow2_nat, 33);
}

/// The combination over no bits, or over the zero word, is 0.
proof fn lemma_combination_of_zero(v: spec_fn(nat) -> u32, b: nat)
    requires
        b <= 32,
    ensures
        xor_combination(v, 0u32, b) == 0,
    decreases b,
{
    if b > 0 {
        lemma_combination_of_zero(v, (b - 1) as nat);
        let j = (b - 1) as u32;
        assert(j < 32 ==> (0u32 >> j) & 1u32 == 0u32) by (bit_vector);
    }
}

/// Combining over the bits of `a ⊕ c` gives the XOR of the two
/// combinations.
pub proof fn lemma_combination_linear(v: spec_fn(nat) -> u32, a: u32, c: u32, b: nat)
    requires
        b <= 32,
    ensures
        xor_combination(v, a, b) ^ xor_combination(v, c, b) == xor_combination(v, a ^ c, b),
    decreases b,
{
    if b == 0 {
        assert(0u32 ^ 0u32 == 0u32) by (bit_vector);
    } else {
        lemma_combination_linear(v, a, c, (b - 1) as nat);
        let j = (b - 1) as u32;
        let ba = (a >> j) & 1u32;
        let bc = (c >> j) & 1u32;
        let bac = ((a ^ c) >> j) & 1u32;
        assert((bac == 1u32) == ((ba == 1u32) != (bc == 1u32))) by (bit_vector)
            requires
                ba == (a >> j) & 1u32,
                bc == (c >> j) & 1u32,
                bac == ((a ^ c) >> j) & 1u32,
        ;
        let pa = xor_combination(v, a, (b - 1) as nat);
        let pc = xor_combination(v, c, (b - 1) as nat);
        let pac = xor_combination(v, a ^ c, (b - 1) as nat);
        let w = v(b);
        assert(xor_combination(v, a, b) == if ba == 1u32 { pa ^ w } else { pa });
        assert(xor_combination(v, c, b) == if bc == 1u32 { pc ^ w } else { pc });
        assert(xor_combination(v, a ^ c, b) == if bac == 1u32 { pac ^ w } else { pac });
        assert(pa ^ pc == pac);
        assert((pa ^ w) ^ (pc ^ w) == pa ^ pc && (pa ^ w) ^ pc == (pa ^ pc) ^ w && pa ^ (pc ^ w) == (pa
            ^ pc) ^ w) by (bit_vector);
    }
}

/// The combination over the single bit `t` is `v_{t+1}`.
pub proof fn lemma_combination_single(v: spec_fn(nat) -> u32, t: u32, b: nat)
    requires
        t < 32,
        b <= 32,
    ensures
        xor_combination(v, 1u32 << t, b) == if b > t {
            v((t + 1) as nat)
        } else {
            0u32
        },
    decreases b,
{
    if b > 0 {
        lemma_combination_single(v, t, (b - 1) as nat);
        let j = (b - 1) as u32;
        assert(t < 32 && j < 32 ==> (((1u32 << t) >> j) & 1u32 == 1u32 <==> j == t)) by (bit_vector);
        let w = v(b);
        assert(0u32 ^ w == w) by (bit_vector);
    }
}

/// Bits of `c` at and above `h + 1` are zero, so they add nothing.
proof fn lemma_combination_stops(v: spec_fn(nat) -> u32, c: u32, h: u32, b: nat)
    requires
        h < 32,
        c >> h == 1u32,
        h + 1 <= b <= 32,
    ensures
        xor_combination(v, c, b) == xor_combination(v, c, (h + 1) as nat),
    decreases b,
{
    if b > h + 1 {
        lemma_combination_stops(v, c, h, (b - 1) as nat);
        let j = (b - 1) as u32;
        assert(h < j && j < 32 && c >> h == 1u32 ==> (c >> j) & 1u32 == 0u32) by (bit_vector);
    }
}

/// Over bits below `h`, direction numbers shaped up to `h` leave the bits
/// below `32 − h` clear.
proof fn lemma_combination_clear(v: spec_fn(nat) -> u32, c: u32, h: nat, b: nat)
    requires
        sobol_shaped(v, h),
        b <= h <= 32,
    ensures
        clear_below(xor_combination(v, c, b), (32 - h) as u64),
    decreases b,
{
    let q = (32 - h) as u64;
    if b == 0 {
        assert(q <= 32 ==> ((0u32 as u64) >> q) << q == (0u32 as u64)) by (bit_vector);
    } else {
        lemma_combination_clear(v, c, h, (b - 1) as nat);
        let j = (b - 1) as u32;
        if (c >> j) & 1u32 == 1u32 {
            assert(odd_multiple_of_pow2(v(b), (32 - b) as u64));
            bv_clear_below_weaken(v(b), (32 - b) as u64, q);
            bv_clear_below_xor(xor_combination(v, c, (b - 1) as nat), v(b), q);
        }
    }
}

/// The highest set bit of a non-zero word.
proof fn lemma_highest_bit(c: u32) -> (h: u32)
    requires
        c != 0,
    ensures
        h < 32,
        c >> h == 1u32,
    decreases c,
{
    if c == 1 {
        assert(1u32 >> 0u32 == 1u32) by (bit_vector);
        0
    } else {
        assert(c != 0 && c != 1 ==> c >> 1u32 < c && c >> 1u32 != 0) by (bit_vector);
        let h1 = lemma_highest_bit(c >> 1u32);
        assert(h1 < 32 && (c >> 1u32) >> h1 == 1u32 ==> h1 < 31 && c >> ((h1 + 1) as u32) == 1u32) by (bit_vector);
        (h1 + 1) as u32
    }
}

/// A non-zero combination of the first `m` shaped direction numbers is
/// non-zero in its top `m` bits.
pub proof fn lemma_combination_top_nonzero(v: spec_fn(nat) -> u32, c: u32, m: nat)
    requires
        1 <= m <= 32,
        sobol_shaped(v, m),
        c != 0,
        m < 32 ==> c >> (m as u32) == 0u32,
    ensures
        xor_combination(v, c, 32) >> ((32 - m) as u32) != 0u32,
{
    let h = lemma_highest_bit(c);
    if m < 32 {
        let m32 = m as u32;
        assert(m32 < 32 && c >> m32 == 0u32 && c >> h == 1u32 ==> h < m32) by (bit_vector);
    }
    assert(h < m);
    assert forall|i: nat| 1 <= i <= h implies #[trigger] odd_multiple_of_pow2(v(i), (32 - i) as u64) by {
        assert(odd_multiple_of_pow2(v(i), (32 - i) as u64));
    }
    lemma_combination_clear(v, c, h as nat, h as nat);
    let low = xor_combination(v, c, h as nat);
    assert(h < 32 && c >> h == 1u32 ==> (c >> h) & 1u32 == 1u32) by (bit_vector);
    let i: nat = (h + 1) as nat;
    let w = v(i);
    assert(odd_multiple_of_pow2(v(i), (32 - i) as u64));
    assert((32 - i) as u64 == (31 - h) as u64);
    assert(((31 - h) + 1) as u64 == (32 - h) as u64);
    bv_shaped_xor(w, low, (31 - h) as u64);
    assert(w ^ low == low ^ w) by (bit_vector);
    lemma_combination_stops(v, c, h, 32);
    let x = xor_combination(v, c, 32);
    assert(x == low ^ w);
    let p = (31 - h) as u64;
    let sh = (32 - m) as u32;
    assert(p < 32 && ((x as u64) >> p) & 1 == 1 && (sh as u64) <= p ==> x >> sh != 0u32) by (bit_vector);
}

/// `k ≥ 1` is an odd multiple of `2^c(k)`, `c(k)` its trailing zeros.
proof fn lemma_trailing_zero_bits(k: nat)
    requires
        1 <= k < 0x1_0000_0000,
    ensures
        trailing_zero_count(k) < 32,
        ((k as u32) >> (trailing_zero_count(k) as u32)) << (trailing_zero_count(k) as u32) == k as u32,
        ((k as u32) >> (trailing_zero_count(k) as u32)) & 1u32 == 1u32,
    decreases k,
{
    let ku = k as u32;
    if k % 2 == 1 {
        assert(ku % 2 == 1 ==> (ku >> 0u32) << 0u32 == ku && (ku >> 0u32) & 1u32 == 1u32) by (bit_vector);
    } else {
        lemma_trailing_zero_bits(k / 2);
        let t1 = trailing_zero_count(k / 2) as u32;
        let hu = (k / 2) as u32;
        assert(ku >> 1u32 == ku / 2) by (bit_vector);
        assert(hu == ku / 2 && ku % 2 == 0);
        assert(t1 < 32 && ku % 2 == 0 && hu == ku >> 1u32 && (hu >> t1) << t1 == hu && (hu >> t1) & 1u32
            == 1u32 ==> t1 < 31 && (ku >> ((t1 + 1) as u32)) << ((t1 + 1) as u32) == ku && (ku >> ((t1 + 1)
            as u32)) & 1u32 == 1u32) by (bit_vector);
    }
}

/// Consecutive Gray codes differ in the bit of the trailing zeros of `k`.
proof fn lemma_gray_step(k: u32, t: u32)
    requires
        k != 0,
        t < 32,
        (k >> t) << t == k,
        (k >> t) & 1u32 == 1u32,
    ensures
        gray_code((k - 1) as u32) ^ (1u32 << t) == gray_code(k),
{
    let km = (k - 1) as u32;
    assert(k != 0 && t < 32 && (k >> t) << t == k && (k >> t) & 1u32 == 1u32 && km == k - 1 ==> (km ^ (km
        >> 1u32)) ^ (1u32 << t) == k ^ (k >> 1u32)) by (bit_vector);
}

/// The state of point `k` is the combination over the bits of its Gray
/// code.
pub proof fn lemma_gray_state_combination(v: spec_fn(nat) -> u32, k: nat)
    requires
        k < 0x1_0000_0000,
    ensures
        gray_state(v, k) == xor_combination(v, gray_code(k as u32), 32),
    decreases k,
{
    if k == 0 {
        assert(gray_code(0u32) == 0u32) by (bit_vector);
        lemma_combination_of_zero(v, 32);
    } else {
        lemma_gray_state_combination(v, (k - 1) as nat);
        lemma_trailing_zero_bits(k);
        let t = trailing_zero_count(k) as u32;
        let ku = k as u32;
        assert(((k - 1) as nat) as u32 == (ku - 1) as u32);
        lemma_gray_step(ku, t);
        lemma_combination_single(v, t, 32);
        lemma_combination_linear(v, gray_code((ku - 1) as u32), 1u32 << t, 32);
    }
}

/// Gray codes of distinct words are distinct, and a code keeps the width
/// of its word.
proof fn lemma_gray_injective(k1: u32, k2: u32, m: u32)
    requires
        k1 != k2,
        m < 32 ==> k1 >> m == 0u32 && k2 >> m == 0u32,
    ensures
        gray_code(k1) != gray_code(k2),
        m < 32 ==> (gray_code(k1) ^ gray_code(k2)) >> m == 0u32,
{
    assert(k1 != k2 ==> k1 ^ (k1 >> 1u32) != k2 ^ (k2 >> 1u32)) by (bit_vector);
    assert(m < 32 && k1 >> m == 0u32 && k2 >> m == 0u32 ==> ((k1 ^ (k1 >> 1u32)) ^ (k2 ^ (k2 >> 1u32)))
        >> m == 0u32) by (bit_vector);
}

/// For shaped direction numbers the first `2^m` points of the sequence lie
/// in distinct intervals `[b / 2^m, (b + 1) / 2^m)`: the top `m` bits of
/// their states differ, so each of the `2^m` intervals holds exactly one
/// of them.
pub proof fn law_sobol_points_stratified(v: spec_fn(nat) -> u32, m: nat, k1: nat, k2: nat)
    requires
        1 <= m <= 32,
        sobol_shaped(v, m),
        k1 < pow2_nat(m),
        k2 < pow2_nat(m),
        k1 != k2,
    ensures
        gray_state(v, k1) >> ((32 - m) as u32) != gray_state(v, k2) >> ((32 - m) as u32),
        gray_state(v, k1) >> ((32 - m) as u32) < pow2_nat(m),
{
    lemma_pow2_32();
    crate::sobol::lemma_pow2_monotone(m, 32);
    let a = k1 as u32;
    let b = k2 as u32;
    let m32 = m as u32;
    if m < 32 {
        lemma_shift_bound(k1, m);
        lemma_shift_bound(k2, m);
    }
    lemma_gray_injective(a, b, m32);
    lemma_gray_state_combination(v, k1);
    lemma_gray_state_combination(v, k2);
    let ga = gray_code(a);
    let gb = gray_code(b);
    lemma_combination_linear(v, ga, gb, 32);
    assert(ga != gb ==> ga ^ gb != 0u32) by (bit_vector);
    lemma_combination_top_nonzero(v, ga ^ gb, m);
    let xa = xor_combination(v, ga, 32);
    let xb = xor_combination(v, gb, 32);
    let sh = (32 - m) as u32;
    assert((xa ^ xb) >> sh != 0u32 ==> xa >> sh != xb >> sh) by (bit_vector);
    lemma_top_bits_bound(gray_state(v, k1), m);
}

/// A word below `2^m` has nothing at or above bit `m`.
proof fn lemma_shift_bound(k: nat, m: nat)
    requires
        m < 32,
        k < pow2_nat(m),
    ensures
        (k as u32) >> (m as u32) == 0u32,
{
    crate::sobol::lemma_pow2_monotone(m, 32);
    lemma_pow2_32();
    lemma_pow2_shift(m);
    let ku = k as u32;
    let m32 = m as u32;
    let p = 1u32 << m32;
    assert(m32 < 32 && ku < p && p == 1u32 << m32 ==> ku >> m32 == 0u32) by (bit_vector);
}

/// The top `m` bits of a word are below `2^m`.
proof fn lemma_top_bits_bound(x: u32, m: nat)
    requires
        1 <= m <= 32,
    ensures
        x >> ((32 - m) as u32) < pow2_nat(m),
{
    let sh = (32 - m) as u32;
    if m == 32 {
        lemma_pow2_32();
        assert(x >> 0u32 == x) by (bit_vector);
    } else {
        lemma_pow2_shift(m);
        let m32 = m as u32;
        assert(m32 < 32 && sh == 32 - m32 ==> x >> sh < 1u32 << m32) by (bit_vector);
    }
}

/// `2^m` as a shift, `m < 32`.
proof fn lemma_pow2_shift(m: nat)
    requires
        m < 32,
    ensures
        (1u32 << (m as u32)) as nat == pow2_nat(m),
    decreases m,
{
    if m == 0 {
        assert(1u32 << 0u32 == 1u32) by (bit_vector);
    } else {
        lemma_pow2_shift((m - 1) as nat);
        let m1 = (m - 1) as u32;
        assert(m1 < 31 ==> (1u32 << ((m1 + 1) as u32)) == 2 * (1u32 << m1)) by (bit_vector);
    }
}

/// A row of initial direction numbers `m_1..m_s` in which every `m_k` is
/// odd and below `2^k`.
pub open spec fn odd_initial_numbers(m: Seq<u32>) -> bool {
    forall|k: int| 0 <= k < m.len() ==> #[trigger] m[k] & 1u32 == 1u32 && m[k] >> ((k + 1) as u32) == 0u32
}

/// The Joe–Kuo recurrence keeps direction numbers shaped: from odd initial
/// numbers `m_k < 2^k`, every `v_i` (`1 ≤ i ≤ 32`) is an odd multiple of
/// `2^(32 − i)`.
pub proof fn lemma_direction_number_shaped(a: u32, m: Seq<u32>, i: nat)
    requires
        1 <= m.len() <= 31,
        odd_initial_numbers(m),
        1 <= i <= 32,
    ensures
        odd_multiple_of_pow2(direction_number(a, m, i), (32 - i) as u64),
    decreases i, 1nat, 0nat,
{
    let s = m.len();
    if i <= s {
        let mk = m[i - 1];
        assert(mk & 1u32 == 1u32 && mk >> (((i - 1) + 1) as u32) == 0u32);
        assert(((i - 1) + 1) as u32 == (i as u64) as u32);
        bv_shifted_odd(mk, i as u64);
    } else {
        let base = direction_number(a, m, (i - s) as nat);
        lemma_direction_number_shaped(a, m, (i - s) as nat);
        let p = (32 - i) as u64;
        assert((p + s) as u64 == (32 - (i - s)) as u64);
        bv_shaped_shift_xor(base, p, s as u64);
        assert((s as u64) as u32 == s as u32);
        lemma_fold_shaped(a, m, i, 1, (base >> (s as u32)) ^ base);
    }
}

/// Folding further recurrence terms into a shaped accumulator keeps it
/// shaped.
proof fn lemma_fold_shaped(a: u32, m: Seq<u32>, i: nat, k0: nat, acc: u32)
    requires
        1 <= m.len() <= 31,
        odd_initial_numbers(m),
        m.len() < i <= 32,
        1 <= k0,
        odd_multiple_of_pow2(acc, (32 - i) as u64),
    ensures
        odd_multiple_of_pow2(recurrence_fold(a, m, i, k0, acc), (32 - i) as u64),
    decreases i, 0nat, m.len() - k0,
{
    let s = m.len();
    if k0 < s {
        let p = (32 - i) as u64;
        let term = if (a >> ((s - 1 - k0) as u32)) & 1u32 != 0 {
            direction_number(a, m, (i - k0) as nat)
        } else {
            0u32
        };
        if (a >> ((s - 1 - k0) as u32)) & 1u32 != 0 {
            lemma_direction_number_shaped(a, m, (i - k0) as nat);
            bv_shaped_clear_above(term, (32 - (i - k0)) as u64, p);
        } else {
            assert(p < 32 ==> ((0u32 as u64) >> ((p + 1) as u64)) << ((p + 1) as u64) == (0u32 as u64)) by (bit_vector);
        }
        bv_shaped_xor(acc, term, p);
        lemma_fold_shaped(a, m, i, k0 + 1, acc ^ term);
    }
}

/// Direction numbers of a Joe–Kuo row with odd initial numbers are
/// shaped.
pub proof fn lemma_row_directions_shaped(a: u32, m: Seq<u32>, v: spec_fn(nat) -> u32)
    requires
        1 <= m.len() <= 31,
        odd_initial_numbers(m),
        forall|i: nat| 1 <= i <= 32 ==> #[trigger] v(i) == direction_number(a, m, i),
    ensures
        sobol_shaped(v, 32),
{
    assert forall|i: nat| 1 <= i <= 32 implies #[trigger] odd_multiple_of_pow2(v(i), (32 - i) as u64) by {
        lemma_direction_number_shaped(a, m, i);
    }
}

/// XOR of all the words of `s` (0 for an empty sequence).
pub open spec fn xor_all(s: Seq<u32>) -> u32
    decreases s.len(),
{
    if s.len() == 0 {
        0
    } else {
        s[0] ^ xor_all(s.drop_first())
    }
}

/// The terms `a_k · v_{i−k}` for `k = 1, …, s − 1` of the recurrence for
/// `v_i`, where `a_k` is bit `s − 1 − k` of the coefficient `a` (so `a_1`
/// is its highest stored bit).
pub open spec fn recurrence_terms(a: u32, m: Seq<u32>, i: nat) -> Seq<u32> {
    let s = m.len();
    Seq::new(
        (s - 1) as nat,
        |t: int|
            {
                let k = t + 1;
                if (a >> ((s - 1 - k) as u32)) & 1u32 == 1u32 {
                    direction_number(a, m, (i - k) as nat)
                } else {
                    0u32
                }
            },
    )
}

proof fn bv_xor_zero(x: u32)
    ensures
        x ^ 0u32 == x,
{
    assert(x ^ 0u32 == x) by (bit_vector);
}

proof fn bv_xor_assoc(x: u32, y: u32, z: u32)
    ensures
        (x ^ y) ^ z == x ^ (y ^ z),
{
    assert((x ^ y) ^ z == x ^ (y ^ z)) by (bit_vector);
}

proof fn bv_low_bit(x: u32)
    ensures
        (x & 1u32 != 0u32) <==> (x & 1u32 == 1u32),
{
    assert((x & 1u32 != 0u32) <==> (x & 1u32 == 1u32)) by (bit_vector);
}

/// Folding the recurrence terms from `k0` on into `acc` XORs in exactly
/// the terms `k0, …, s − 1`.
proof fn lemma_fold_is_xor(a: u32, m: Seq<u32>, i: nat, k0: nat, acc: u32)
    requires
        1 <= m.len() <= 31,
        m.len() < i,
        1 <= k0 <= m.len(),
    ensures
        recurrence_fold(a, m, i, k0, acc) == acc ^ xor_all(
            recurrence_terms(a, m, i).subrange(k0 - 1, m.len() - 1),
        ),
    decreases m.len() - k0,
{
    let s = m.len();
    let terms = recurrence_terms(a, m, i);
    let rest = terms.subrange(k0 - 1, s - 1);
    if k0 == s {
        assert(rest.len() == 0);
        bv_xor_zero(acc);
    } else {
        let x = a >> ((s - 1 - k0) as u32);
        bv_low_bit(x);
        let term = if x & 1u32 != 0 {
            direction_number(a, m, (i - k0) as nat)
        } else {
            0u32
        };
        assert(rest[0] == terms[k0 - 1]);
        assert(terms[k0 - 1] == term);
        lemma_fold_is_xor(a, m, i, k0 + 1, acc ^ term);
        assert(rest.drop_first() =~= terms.subrange(k0 as int, s - 1));
        bv_xor_assoc(acc, term, xor_all(rest.drop_first()));
    }
}

/// The Joe–Kuo recurrence: for `i > s`,
/// `v_i = (v_{i−s} >> s) ⊕ v_{i−s} ⊕ a_1 v_{i−1} ⊕ … ⊕ a_{s−1} v_{i−s+1}`,
/// where `a_k` is bit `s − 1 − k` of the coefficient `a`.
pub proof fn law_direction_number_recurrence(a: u32, m: Seq<u32>, i: nat)
    requires
        1 <= m.len() <= 31,
        m.len() < i,
    ensures
        ({
            let s = m.len();
            let base = direction_number(a, m, (i - s) as nat);
            direction_number(a, m, i) == ((base >> (s as u32)) ^ base) ^ xor_all(
                recurrence_terms(a, m, i),
            )
        }),
{
    let s = m.len();
    let base = direction_number(a, m, (i - s) as nat);
    lemma_fold_is_xor(a, m, i, 1, (base >> (s as u32)) ^ base);
    assert(recurrence_terms(a, m, i).subrange(0, s - 1) =~= recurrence_terms(a, m, i));
}

/// The third dimension of the standard table (`s = 2`, `a = 1`,
/// `m = [1, 3]`): `v_1..v_5 = 0x80000000, 0xC0000000, 0x60000000,
/// 0x90000000, 0xE8000000`.
pub proof fn law_third_dimension_directions()
    ensures
        direction_number(1, seq![1u32, 3u32], 1) == 0x8000_0000u32,
        direction_number(1, seq![1u32, 3u32], 2) == 0xC000_0000u32,
        direction_number(1, seq![1u32, 3u32], 3) == 0x6000_0000u32,
        direction_number(1, seq![1u32, 3u32], 4) == 0x9000_0000u32,
        direction_number(1, seq![1u32, 3u32], 5) == 0xE800_0000u32,
{
    let m = seq![1u32, 3u32];
    let v1 = direction_number(1, m, 1);
    let v2 = direction_number(1, m, 2);
    assert(v1 == 1u32 << 31u32);
    assert(v2 == 3u32 << 30u32);
    assert(1u32 << 31u32 == 0x8000_0000u32 && 3u32 << 30u32 == 0xC000_0000u32) by (bit_vector);
    assert((1u32 >> 0u32) & 1u32 != 0u32) by (bit_vector);
    let v3 = direction_number(1, m, 3);
    assert(v3 == recurrence_fold(1, m, 3, 1, (v1 >> 2u32) ^ v1));
    assert(recurrence_fold(1, m, 3, 2, ((v1 >> 2u32) ^ v1) ^ v2) == ((v1 >> 2u32) ^ v1) ^ v2);
    assert(v3 == ((v1 >> 2u32) ^ v1) ^ v2);
    let v4 = direction_number(1, m, 4);
    assert(v4 == recurrence_fold(1, m, 4, 1, (v2 >> 2u32) ^ v2));
    assert(recurrence_fold(1, m, 4, 2, ((v2 >> 2u32) ^ v2) ^ v3) == ((v2 >> 2u32) ^ v2) ^ v3);
    assert(v4 == ((v2 >> 2u32) ^ v2) ^ v3);
    let v5 = direction_number(1, m, 5);
    assert(v5 == recurrence_fold(1, m, 5, 1, (v3 >> 2u32) ^ v3));
    assert(recurrence_fold(1, m, 5, 2, ((v3 >> 2u32) ^ v3) ^ v4) == ((v3 >> 2u32) ^ v3) ^ v4);
    assert(v5 == ((v3 >> 2u32) ^ v3) ^ v4);
    assert({
        let x1 = 0x8000_0000u32;
        let x2 = 0xC000_0000u32;
        let x3 = ((x1 >> 2u32) ^ x1) ^ x2;
        let x4 = ((x2 >> 2u32) ^ x2) ^ x3;
        let x5 = ((x3 >> 2u32) ^ x3) ^ x4;
        x3 == 0x6000_0000u32 && x4 == 0x9000_0000u32 && x5 == 0xE800_0000u32
    }) by (bit_vector);
}

} // verus!
