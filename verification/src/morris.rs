//! Morris one-at-a-time trajectories (Morris 1991) on the grid
//! `{0, 1/(p − 1), …, 1}^d`, in integer grid levels.
//!
//! Each trajectory draws a base point from the lower half of the grid
//! (level `w mod (p/2)` per factor), shuffles the factors (or groups) and
//! steps them in that order by `Δ = p / (2(p − 1))`, i.e. by `p/2` grid
//! levels. Level `ℓ` stands for the unit value `ℓ · 1/(p − 1)`; a point is
//! its base value plus `Δ` once per step that moved the factor.

use vstd::prelude::*;

use crate::permutation::{fisher_yates, is_permutation, keystream, random_permutation, shuffle_cost};
use crate::rng::{chacha20_word, RngState};

verus! {

/// Errors from the trajectory builders.
#[derive(Debug, Clone, Copy, PartialEq, Eq, Structural)]
#[non_exhaustive]
pub enum MorrisError {
    /// `r` was 0.
    ZeroR,
    /// `d` was 0.
    ZeroD,
    /// `levels < 2`.
    LevelsBelowTwo { levels: u32 },
    /// `levels` was odd.
    LevelsOdd { levels: u32 },
}

/// A group of factors stepped together in grouped Morris.
#[derive(Debug, Clone)]
pub struct Group {
    /// Group label.
    pub name: String,
    /// Indices of the factors in the group.
    pub factor_indices: Vec<usize>,
}

/// Morris trajectories in grid levels.
#[derive(Debug, Clone)]
pub struct MorrisGrid {
    /// `base_levels[t][j]`: base level of factor `j` in trajectory `t`.
    pub base_levels: Vec<Vec<u32>>,
    /// `points[t][k][j]`: level of factor `j` at point `k` of trajectory `t`.
    pub points: Vec<Vec<Vec<u64>>>,
    /// `step_counts[t][j]`: how many steps of trajectory `t` moved factor `j`.
    pub step_counts: Vec<Vec<u64>>,
    /// Ungrouped: `factor_order[t][k]` is the factor stepped at position
    /// `k`. Grouped: `factor_order[t][j]` is the position of the last step
    /// that moved factor `j` (0 if none did).
    pub factor_order: Vec<Vec<usize>>,
    /// Grouped only: `group_order[t][k]` is the group stepped at position `k`.
    pub group_order: Option<Vec<Vec<usize>>>,
    /// Number of trajectories.
    pub r: usize,
    /// Factor count.
    pub d: usize,
    /// Grid levels `p`.
    pub levels: u32,
}

/// Occurrences of `v` in `s`.
pub open spec fn count_in(s: Seq<usize>, v: usize) -> nat
    decreases s.len(),
{
    if s.len() == 0 {
        0
    } else {
        count_in(s.drop_last(), v) + if s.last() == v {
            1nat
        } else {
            0nat
        }
    }
}

/// How often the first `k` stepped groups move factor `j`.
pub open spec fn group_moves(groups: Seq<Seq<usize>>, order: Seq<usize>, k: nat, j: usize) -> nat
    decreases k,
{
    if k == 0 {
        0
    } else {
        group_moves(groups, order, (k - 1) as nat, j) + count_in(groups[order[k - 1] as int], j)
    }
}

/// Validation shared by both builders.
pub open spec fn morris_check(d: usize, r: usize, levels: u32) -> Result<(), MorrisError> {
    if r == 0 {
        Err(MorrisError::ZeroR)
    } else if d == 0 {
        Err(MorrisError::ZeroD)
    } else if levels < 2 {
        Err(MorrisError::LevelsBelowTwo { levels })
    } else if levels % 2 != 0 {
        Err(MorrisError::LevelsOdd { levels })
    } else {
        Ok(())
    }
}

fn check_args(d: usize, r: usize, levels: u32) -> (res: Result<(), MorrisError>)
    ensures
        res == morris_check(d, r, levels),
{
    if r == 0 {
        return Err(MorrisError::ZeroR);
    }
    if d == 0 {
        return Err(MorrisError::ZeroD);
    }
    if levels < 2 {
        return Err(MorrisError::LevelsBelowTwo { levels });
    }
    if levels % 2 != 0 {
        return Err(MorrisError::LevelsOdd { levels });
    }
    Ok(())
}

/// Base level that keystream word `w` selects on a `levels`-point grid:
/// `w mod (p/2)`, a level of the lower half.
pub open spec fn base_level_of(w: u32, levels: u32) -> u32 {
    w % (levels / 2)
}

/// `base` holds the `d` base levels drawn from the keystream words at
/// positions `pos, pos + 1, …`.
pub open spec fn drawn_base(seed: Seq<u8>, stream: u64, pos: int, levels: u32, d: nat, base: Seq<u32>) -> bool {
    &&& base.len() == d
    &&& forall|j: int|
        0 <= j < d ==> #[trigger] base[j] == base_level_of(
            chacha20_word(seed, stream, (pos + j) as u128),
            levels,
        )
}

/// Each drawn base level is the remainder of its keystream word `w` on
/// division by `p/2`: it lies in the lower half `0..p/2`, differs from `w`
/// by a multiple of `p/2`, and a word already below `p/2` is taken as it
/// is, so every lower-half level can be drawn.
pub proof fn law_base_level_is_word_mod_half(
    seed: Seq<u8>,
    stream: u64,
    pos: int,
    levels: u32,
    d: nat,
    base: Seq<u32>,
    j: int,
)
    requires
        levels >= 2,
        drawn_base(seed, stream, pos, levels, d, base),
        0 <= j < d,
    ensures
        ({
            let w = chacha20_word(seed, stream, (pos + j) as u128) as int;
            let half = (levels / 2) as int;
            &&& 0 <= base[j] < half
            &&& (w - base[j]) % half == 0
            &&& w < half ==> base[j] == w
        }),
{
    let w = chacha20_word(seed, stream, (pos + j) as u128) as int;
    let half = (levels / 2) as int;
    assert(base[j] == base_level_of(chacha20_word(seed, stream, (pos + j) as u128), levels));
    vstd::arithmetic::div_mod::lemma_fundamental_div_mod(w, half);
    vstd::arithmetic::div_mod::lemma_div_pos_is_pos(w, half);
    let q = w / half;
    assert(w == half * q + w % half);
    assert(q * half == half * q) by (nonlinear_arith);
    assert(w == q * half + base[j]);
    vstd::arithmetic::div_mod::lemma_mod_multiples_basic(q, half);
    assert(w - base[j] == q * half);
    if w < half {
        vstd::arithmetic::div_mod::lemma_small_mod(w as nat, half as nat);
    }
}

/// Draws the `d` base levels of one trajectory, one word each.
fn draw_base(d: usize, levels: u32, rng: &mut RngState) -> (base: Vec<u32>)
    requires
        levels >= 2,
        old(rng).word_pos + d <= u128::MAX,
    ensures
        drawn_base(old(rng).seed@, old(rng).stream, old(rng).word_pos as int, levels, d as nat, base@),
        forall|j: int| 0 <= j < d ==> #[trigger] base@[j] < levels / 2,
        final(rng).seed == old(rng).seed,
        final(rng).stream == old(rng).stream,
        final(rng).word_pos == old(rng).word_pos + d,
{
    let valid_base_levels = levels / 2;
    let mut base: Vec<u32> = Vec::new();
    let mut j: usize = 0;
    while j < d
        invariant
            levels >= 2,
            valid_base_levels == levels / 2,
            j <= d,
            drawn_base(old(rng).seed@, old(rng).stream, old(rng).word_pos as int, levels, j as nat, base@),
            forall|q: int| 0 <= q < j ==> #[trigger] base@[q] < levels / 2,
            rng.seed == old(rng).seed,
            rng.stream == old(rng).stream,
            rng.word_pos == old(rng).word_pos + j,
            old(rng).word_pos + d <= u128::MAX,
        decreases d - j,
    {
        let w = rng.next_u32();
        let lvl = w % valid_base_levels;
        base.push(lvl);
        j = j + 1;
    }
    base
}

/// Occurrences in a prefix grow by the next element's match.
pub proof fn lemma_count_in_take(s: Seq<usize>, k: int, v: usize)
    requires
        0 <= k < s.len(),
    ensures
        count_in(s.take(k + 1), v) == count_in(s.take(k), v) + if s[k] == v {
            1nat
        } else {
            0nat
        },
{
    assert(s.take(k + 1).drop_last() =~= s.take(k));
}

/// Occurrences never exceed the length.
pub proof fn lemma_count_in_le_len(s: Seq<usize>, v: usize)
    ensures
        count_in(s, v) <= s.len(),
    decreases s.len(),
{
    if s.len() > 0 {
        lemma_count_in_le_len(s.drop_last(), v);
    }
}

/// In a sequence without repeats every value occurs at most once, and a
/// value occurs in a prefix exactly when some position of the prefix
/// holds it.
pub proof fn lemma_count_in_distinct_prefix(s: Seq<usize>, k: int, v: usize)
    requires
        0 <= k <= s.len(),
        forall|a: int, b: int| 0 <= a < b < s.len() ==> s[a] != s[b],
    ensures
        count_in(s.take(k), v) <= 1,
        count_in(s.take(k), v) == 1 <==> exists|a: int| 0 <= a < k && s[a] == v,
    decreases k,
{
    if k == 0 {
        assert(s.take(0) =~= Seq::<usize>::empty());
    } else {
        lemma_count_in_distinct_prefix(s, k - 1, v);
        lemma_count_in_take(s, k - 1, v);
        if s[k - 1] == v {
            if exists|a: int| 0 <= a < k - 1 && s[a] == v {
                let a = choose|a: int| 0 <= a < k - 1 && s[a] == v;
                assert(s[a] != s[k - 1]);
            }
        }
    }
}

/// Level of factor `j` at point `k` of an ungrouped trajectory: the base
/// level plus `p/2` if the factor is among the first `k` stepped.
pub open spec fn oat_level(base: u32, order: Seq<usize>, half: nat, k: int, j: usize) -> nat {
    base as nat + half * count_in(order.take(k), j)
}

/// Words one ungrouped trajectory draws: `d` base levels and a shuffle.
pub open spec fn trajectory_cost(d: nat) -> nat {
    d + shuffle_cost(d)
}

/// `points` are the `d + 1` points of the one-at-a-time walk from `base`
/// that steps the factors in `order`.
pub open spec fn oat_trajectory(base: Seq<u32>, order: Seq<usize>, half: nat, points: Seq<Vec<u64>>) -> bool {
    let d = base.len();
    &&& points.len() == d + 1
    &&& forall|k: int| 0 <= k <= d ==> (#[trigger] points[k])@.len() == d
    &&& forall|k: int, j: int|
        0 <= k <= d && 0 <= j < d ==> (#[trigger] points[k]@[j]) as nat == oat_level(
            base[j],
            order,
            half,
            k,
            j as usize,
        )
}

/// Trajectory whose draws start at keystream position `pos`: its base
/// levels, its factor order, its step counts and its points.
pub open spec fn drawn_oat_trajectory(
    seed: Seq<u8>,
    stream: u64,
    pos: int,
    d: nat,
    levels: u32,
    base: Seq<u32>,
    order: Seq<usize>,
    counts: Seq<u64>,
    points: Seq<Vec<u64>>,
) -> bool {
    &&& drawn_base(seed, stream, pos, levels, d, base)
    &&& order == fisher_yates(d, keystream(seed, stream, pos + d, shuffle_cost(d)))
    &&& is_permutation(order, d)
    &&& counts == Seq::new(d, |j: int| 1u64)
    &&& oat_trajectory(base, order, (levels / 2) as nat, points)
}

/// Between consecutive points of an ungrouped trajectory exactly one
/// factor moves, the one stepped at that position, and it moves by `p/2`
/// levels (the step `Δ`); it had not moved before.
pub proof fn law_oat_step(base: Seq<u32>, order: Seq<usize>, half: nat, k: int, j: usize)
    requires
        is_permutation(order, base.len()),
        0 <= k < base.len(),
    ensures
        oat_level(base[j as int], order, half, k + 1, j) == oat_level(base[j as int], order, half, k, j)
            + if j == order[k] {
            half
        } else {
            0nat
        },
        j == order[k] ==> count_in(order.take(k), j) == 0,
{
    lemma_count_in_take(order, k, j);
    let c0 = count_in(order.take(k), j);
    let c1 = count_in(order.take(k + 1), j);
    let e: nat = if j == order[k] {
        1
    } else {
        0
    };
    assert(half * c1 == half * c0 + half * e) by (nonlinear_arith)
        requires
            c1 == c0 + e,
    ;
    if j == order[k] {
        lemma_count_in_distinct_prefix(order, k, j);
        if c0 == 1 {
            let a = choose|a: int| 0 <= a < k && order[a] == j;
            assert(order[a] != order[k]);
        }
    }
}

/// The one-at-a-time walk from `base` along `order`, `d + 1` points.
fn oat_points(base: &Vec<u32>, order: &Vec<usize>, half: u32) -> (points: Vec<Vec<u64>>)
    requires
        half >= 1,
        is_permutation(order@, base@.len()),
        forall|q: int| 0 <= q < base@.len() ==> #[trigger] base@[q] < half,
    ensures
        oat_trajectory(base@, order@, half as nat, points@),
{
    let d = base.len();
    let h = half as u64;
    let mut current: Vec<u64> = Vec::new();
    let mut j: usize = 0;
    while j < d
        invariant
            j <= d,
            d == base@.len(),
            current@.len() == j,
            forall|q: int| 0 <= q < j ==> #[trigger] current@[q] == base@[q] as u64,
        decreases d - j,
    {
        current.push(base[j] as u64);
        j = j + 1;
    }
    let mut points: Vec<Vec<u64>> = Vec::new();
    points.push(current.clone());
    proof {
        assert(order@.take(0) =~= Seq::<usize>::empty());
        assert(points@[0]@ =~= current@);
    }
    let mut step: usize = 0;
    while step < d
        invariant
            step <= d,
            d == base@.len(),
            h == half as u64,
            half >= 1,
            forall|q: int| 0 <= q < d ==> #[trigger] base@[q] < half,
            is_permutation(order@, d as nat),
            current@.len() == d,
            forall|q: int|
                0 <= q < d ==> #[trigger] current@[q] as nat == oat_level(
                    base@[q],
                    order@,
                    half as nat,
                    step as int,
                    q as usize,
                ),
            points@.len() == step + 1,
            forall|k: int| 0 <= k <= step ==> (#[trigger] points@[k])@.len() == d,
            forall|k: int, q: int|
                0 <= k <= step && 0 <= q < d ==> (#[trigger] points@[k]@[q]) as nat == oat_level(
                    base@[q],
                    order@,
                    half as nat,
                    k,
                    q as usize,
                ),
        decreases d - step,
    {
        let fj = order[step];
        proof {
            assert forall|q: int| 0 <= q < d implies #[trigger] oat_level(
                base@[q],
                order@,
                half as nat,
                step + 1,
                q as usize,
            ) == oat_level(base@[q], order@, half as nat, step as int, q as usize) + if q == fj {
                half as nat
            } else {
                0nat
            } by {
                law_oat_step(base@, order@, half as nat, step as int, q as usize);
            }
            law_oat_step(base@, order@, half as nat, step as int, fj);
            assert(current@[fj as int] as nat == oat_level(base@[fj as int], order@, half as nat, step as int, fj));
        }
        let x = current[fj] + h;
        current.set(fj, x);
        points.push(current.clone());
        proof {
            assert(points@[step + 1]@ =~= current@);
        }
        step = step + 1;
    }
    points
}

/// Builds `r` Morris trajectories of `d + 1` points on a `levels`-point
/// grid; each trajectory steps every factor once, in a shuffled order.
/// Trajectory `t` draws its `d` base levels and then its shuffle from the
/// keystream, starting `t · (d + (d − 1))` words past the initial position.
pub fn build_morris_trajectories(d: usize, r: usize, levels: u32, rng: &mut RngState) -> (res:
    Result<MorrisGrid, MorrisError>)
    requires
        morris_check(d, r, levels) is Ok ==> old(rng).word_pos + r * trajectory_cost(d as nat)
            <= u128::MAX,
    ensures
        res is Err <==> morris_check(d, r, levels) is Err,
        res matches Err(e) ==> morris_check(d, r, levels) == Err::<(), MorrisError>(e) && *final(rng)
            == *old(rng),
        res matches Ok(g) ==> {
            &&& g.r == r && g.d == d && g.levels == levels && g.group_order is None
            &&& g.base_levels@.len() == r && g.factor_order@.len() == r
            &&& g.points@.len() == r && g.step_counts@.len() == r
            &&& forall|t: int|
                #![trigger g.base_levels@[t]]
                0 <= t < r ==> drawn_oat_trajectory(
                    old(rng).seed@,
                    old(rng).stream,
                    old(rng).word_pos + t * trajectory_cost(d as nat),
                    d as nat,
                    levels,
                    g.base_levels@[t]@,
                    g.factor_order@[t]@,
                    g.step_counts@[t]@,
                    g.points@[t]@,
                )
            &&& final(rng).seed == old(rng).seed && final(rng).stream == old(rng).stream
            &&& final(rng).word_pos == old(rng).word_pos + r * trajectory_cost(d as nat)
        },
{
    check_args(d, r, levels)?;
    let half: u32 = levels / 2;
    let ghost start = rng.word_pos as int;
    let ghost cost = trajectory_cost(d as nat);
    let mut base_levels: Vec<Vec<u32>> = Vec::new();
    let mut points: Vec<Vec<Vec<u64>>> = Vec::new();
    let mut step_counts: Vec<Vec<u64>> = Vec::new();
    let mut factor_order: Vec<Vec<usize>> = Vec::new();
    let mut t: usize = 0;
    while t < r
        invariant
            levels >= 2,
            levels % 2 == 0,
            half == levels / 2,
            cost == trajectory_cost(d as nat),
            start == old(rng).word_pos,
            start + r * cost <= u128::MAX,
            t <= r,
            rng.seed == old(rng).seed,
            rng.stream == old(rng).stream,
            rng.word_pos == start + t * cost,
            base_levels@.len() == t,
            factor_order@.len() == t,
            points@.len() == t,
            step_counts@.len() == t,
            forall|a: int|
                #![trigger base_levels@[a]]
                0 <= a < t ==> drawn_oat_trajectory(
                    old(rng).seed@,
                    old(rng).stream,
                    start + a * cost,
                    d as nat,
                    levels,
                    base_levels@[a]@,
                    factor_order@[a]@,
                    step_counts@[a]@,
                    points@[a]@,
                ),
        decreases r - t,
    {
        proof {
            assert((t + 1) * cost <= r * cost) by (nonlinear_arith)
                requires
                    t + 1 <= r,
            ;
            assert((t + 1) * cost == t * cost + cost) by (nonlinear_arith);
        }
        let ghost pos = rng.word_pos as int;
        let base = draw_base(d, levels, rng);
        let perm = random_permutation(d, rng);
        let traj = oat_points(&base, &perm, half);
        let mut counts: Vec<u64> = Vec::new();
        let mut j: usize = 0;
        while j < d
            invariant
                j <= d,
                counts@ == Seq::new(j as nat, |q: int| 1u64),
            decreases d - j,
        {
            counts.push(1);
            j = j + 1;
            proof {
                assert(counts@ =~= Seq::new(j as nat, |q: int| 1u64));
            }
        }
        proof {
            assert(pos == start + t * cost);
        }
        base_levels.push(base);
        points.push(traj);
        step_counts.push(counts);
        factor_order.push(perm);
        t = t + 1;
    }
    Ok(MorrisGrid {
        base_levels,
        points,
        step_counts,
        factor_order,
        group_order: None,
        r,
        d,
        levels,
    })
}

/// The factor lists of the groups, in group order.
pub open spec fn factor_lists(groups: Seq<Group>) -> Seq<Seq<usize>> {
    Seq::new(groups.len(), |i: int| groups[i].factor_indices@)
}

/// Total number of factor entries in the first `g` lists.
pub open spec fn lens_upto(lists: Seq<Seq<usize>>, g: nat) -> nat
    decreases g,
{
    if g == 0 {
        0
    } else {
        lens_upto(lists, (g - 1) as nat) + lists[g - 1].len()
    }
}

/// Total number of factor entries over all lists.
pub open spec fn total_len(lists: Seq<Seq<usize>>) -> nat {
    lens_upto(lists, lists.len())
}

/// Entries in the lists of the first `k` stepped groups.
pub open spec fn stepped_len(lists: Seq<Seq<usize>>, order: Seq<usize>, k: nat) -> nat
    decreases k,
{
    if k == 0 {
        0
    } else {
        stepped_len(lists, order, (k - 1) as nat) + lists[order[k - 1] as int].len()
    }
}

/// The entries of the lists below `g` whose group is among the first `k`
/// stepped.
pub open spec fn stepped_len_below(lists: Seq<Seq<usize>>, order: Seq<usize>, k: int, g: nat) -> nat
    decreases g,
{
    if g == 0 {
        0
    } else {
        stepped_len_below(lists, order, k, (g - 1) as nat) + count_in(order.take(k), (g - 1) as usize)
            * lists[g - 1].len()
    }
}

/// Level of factor `j` at point `k` of a grouped trajectory: the base level
/// plus `p/2` per move of the factor in the first `k` steps.
pub open spec fn grouped_level(base: u32, lists: Seq<Seq<usize>>, order: Seq<usize>, half: nat, k: nat, j: usize) -> nat {
    base as nat + half * group_moves(lists, order, k, j)
}

/// Position of the last of the first `k` steps that moved factor `j`, or 0
/// if none did.
pub open spec fn last_move(lists: Seq<Seq<usize>>, order: Seq<usize>, k: nat, j: usize) -> usize
    decreases k,
{
    if k == 0 {
        0
    } else if count_in(lists[order[k - 1] as int], j) > 0 {
        (k - 1) as usize
    } else {
        last_move(lists, order, (k - 1) as nat, j)
    }
}

/// `points`, `counts` and `last` are the walk from `base` that steps the
/// groups in `order`, how often each factor moved, and the position of its
/// last move.
pub open spec fn grouped_trajectory(
    base: Seq<u32>,
    lists: Seq<Seq<usize>>,
    order: Seq<usize>,
    half: nat,
    points: Seq<Vec<u64>>,
    counts: Seq<u64>,
    last: Seq<usize>,
) -> bool {
    let d = base.len();
    let n = order.len();
    &&& points.len() == n + 1
    &&& forall|k: int| 0 <= k <= n ==> (#[trigger] points[k])@.len() == d
    &&& forall|k: int, j: int|
        0 <= k <= n && 0 <= j < d ==> (#[trigger] points[k]@[j]) as nat == grouped_level(
            base[j],
            lists,
            order,
            half,
            k as nat,
            j as usize,
        )
    &&& counts.len() == d
    &&& forall|j: int| 0 <= j < d ==> #[trigger] counts[j] as nat == group_moves(lists, order, n, j as usize)
    &&& last.len() == d
    &&& forall|j: int| 0 <= j < d ==> #[trigger] last[j] == last_move(lists, order, n, j as usize)
}

/// A factor moves at most once per entry of the stepped lists.
pub proof fn lemma_group_moves_le(lists: Seq<Seq<usize>>, order: Seq<usize>, k: nat, j: usize)
    ensures
        group_moves(lists, order, k, j) <= stepped_len(lists, order, k),
    decreases k,
{
    if k > 0 {
        lemma_group_moves_le(lists, order, (k - 1) as nat, j);
        lemma_count_in_le_len(lists[order[k - 1] as int], j);
    }
}

/// Stepping one more group adds its entries to the stepped entries below `g`.
proof fn lemma_stepped_len_below_step(lists: Seq<Seq<usize>>, order: Seq<usize>, k: int, g: nat)
    requires
        0 <= k < order.len(),
        g <= usize::MAX + 1,
    ensures
        stepped_len_below(lists, order, k + 1, g) == stepped_len_below(lists, order, k, g) + if order[k]
            < g {
            lists[order[k] as int].len()
        } else {
            0nat
        },
    decreases g,
{
    if g > 0 {
        lemma_stepped_len_below_step(lists, order, k, (g - 1) as nat);
        let v = (g - 1) as usize;
        lemma_count_in_take(order, k, v);
        let c0 = count_in(order.take(k), v);
        let c1 = count_in(order.take(k + 1), v);
        let len = lists[g - 1].len();
        let e: nat = if order[k] == v {
            1
        } else {
            0
        };
        assert(c1 * len == c0 * len + e * len) by (nonlinear_arith)
            requires
                c1 == c0 + e,
        ;
    }
}

/// Over a permutation, the stepped entries are the entries of the stepped
/// groups.
proof fn lemma_stepped_len_as_below(lists: Seq<Seq<usize>>, order: Seq<usize>, k: nat)
    requires
        is_permutation(order, lists.len()),
        lists.len() <= usize::MAX,
        k <= order.len(),
    ensures
        stepped_len(lists, order, k) == stepped_len_below(lists, order, k as int, lists.len()),
    decreases k,
{
    if k == 0 {
        lemma_stepped_len_below_empty(lists, order, lists.len());
    } else {
        lemma_stepped_len_as_below(lists, order, (k - 1) as nat);
        lemma_stepped_len_below_step(lists, order, k - 1, lists.len());
    }
}

/// Before any step nothing is stepped.
proof fn lemma_stepped_len_below_empty(lists: Seq<Seq<usize>>, order: Seq<usize>, g: nat)
    ensures
        stepped_len_below(lists, order, 0, g) == 0,
    decreases g,
{
    assert(order.take(0) =~= Seq::<usize>::empty());
    if g > 0 {
        lemma_stepped_len_below_empty(lists, order, (g - 1) as nat);
    }
}

/// Each group is stepped at most once, so the stepped entries below `g`
/// are at most all entries below `g`.
proof fn lemma_stepped_len_below_le(lists: Seq<Seq<usize>>, order: Seq<usize>, k: int, g: nat)
    requires
        is_permutation(order, lists.len()),
        0 <= k <= order.len(),
        g <= lists.len(),
    ensures
        stepped_len_below(lists, order, k, g) <= lens_upto(lists, g),
    decreases g,
{
    if g > 0 {
        lemma_stepped_len_below_le(lists, order, k, (g - 1) as nat);
        lemma_count_in_distinct_prefix(order, k, (g - 1) as usize);
        let c = count_in(order.take(k), (g - 1) as usize);
        let len = lists[g - 1].len();
        assert(c * len <= len) by (nonlinear_arith)
            requires
                c <= 1,
        ;
    }
}

/// The groups stepped so far hold at most all entries.
pub proof fn lemma_stepped_len_le_total(lists: Seq<Seq<usize>>, order: Seq<usize>, k: nat)
    requires
        is_permutation(order, lists.len()),
        lists.len() <= usize::MAX,
        k <= order.len(),
    ensures
        stepped_len(lists, order, k) <= total_len(lists),
{
    lemma_stepped_len_as_below(lists, order, k);
    lemma_stepped_len_below_le(lists, order, k as int, lists.len());
}

/// The grouped walk from `base` along the group order `order`.
fn grouped_points(base: &Vec<u32>, groups: &[Group], order: &Vec<usize>, half: u32) -> (out: (
    Vec<Vec<u64>>,
    Vec<u64>,
    Vec<usize>,
))
    requires
        half >= 1,
        is_permutation(order@, groups@.len()),
        forall|q: int| 0 <= q < base@.len() ==> #[trigger] base@[q] < half,
        forall|g: int, m: int|
            0 <= g < groups@.len() && 0 <= m < groups@[g].factor_indices@.len()
                ==> #[trigger] groups@[g].factor_indices@[m] < base@.len(),
        (total_len(factor_lists(groups@)) + 1) * half <= u64::MAX,
    ensures
        grouped_trajectory(base@, factor_lists(groups@), order@, half as nat, out.0@, out.1@, out.2@),
{
    let ghost lists = factor_lists(groups@);
    let ghost total = total_len(lists);
    let d = base.len();
    let n = order.len();
    let h = half as u64;
    let mut current: Vec<u64> = Vec::new();
    let mut counts: Vec<u64> = Vec::new();
    let mut last: Vec<usize> = Vec::new();
    let mut j: usize = 0;
    while j < d
        invariant
            j <= d,
            d == base@.len(),
            current@.len() == j,
            counts@.len() == j,
            last@.len() == j,
            forall|q: int| 0 <= q < j ==> #[trigger] current@[q] == base@[q] as u64,
            forall|q: int| 0 <= q < j ==> #[trigger] counts@[q] == 0,
            forall|q: int| 0 <= q < j ==> #[trigger] last@[q] == 0,
        decreases d - j,
    {
        current.push(base[j] as u64);
        counts.push(0);
        last.push(0);
        j = j + 1;
    }
    let mut points: Vec<Vec<u64>> = Vec::new();
    points.push(current.clone());
    proof {
        assert(points@[0]@ =~= current@);
        assert forall|q: int| 0 <= q < d implies #[trigger] grouped_level(
            base@[q],
            lists,
            order@,
            half as nat,
            0,
            q as usize,
        ) == base@[q] as nat by {
            assert(group_moves(lists, order@, 0, q as usize) == 0);
            assert(half as nat * 0 == 0) by (nonlinear_arith);
        }
        assert(total + 1 <= (total + 1) * half) by (nonlinear_arith)
            requires
                half >= 1,
        ;
    }
    let mut step: usize = 0;
    while step < n
        invariant
            step <= n,
            n == order@.len(),
            d == base@.len(),
            h == half as u64,
            half >= 1,
            lists == factor_lists(groups@),
            total == total_len(lists),
            (total + 1) * half <= u64::MAX,
            total + 1 <= u64::MAX,
            forall|q: int| 0 <= q < d ==> #[trigger] base@[q] < half,
            is_permutation(order@, groups@.len()),
            forall|g: int, m: int|
                0 <= g < groups@.len() && 0 <= m < groups@[g].factor_indices@.len()
                    ==> #[trigger] groups@[g].factor_indices@[m] < d,
            current@.len() == d,
            counts@.len() == d,
            last@.len() == d,
            forall|q: int|
                0 <= q < d ==> #[trigger] current@[q] as nat == grouped_level(
                    base@[q],
                    lists,
                    order@,
                    half as nat,
                    step as nat,
                    q as usize,
                ),
            forall|q: int|
                0 <= q < d ==> #[trigger] counts@[q] as nat == group_moves(lists, order@, step as nat, q as usize),
            forall|q: int|
                0 <= q < d ==> #[trigger] last@[q] == last_move(lists, order@, step as nat, q as usize),
            points@.len() == step + 1,
            forall|k: int| 0 <= k <= step ==> (#[trigger] points@[k])@.len() == d,
            forall|k: int, q: int|
                0 <= k <= step && 0 <= q < d ==> (#[trigger] points@[k]@[q]) as nat == grouped_level(
                    base@[q],
                    lists,
                    order@,
                    half as nat,
                    k as nat,
                    q as usize,
                ),
        decreases n - step,
    {
        let gi = order[step];
        let members = &groups[gi].factor_indices;
        let ghost mem = members@;
        proof {
            assert(mem == lists[gi as int]);
            lemma_stepped_len_le_total(lists, order@, (step + 1) as nat);
        }
        let mut m: usize = 0;
        while m < members.len()
            invariant
                m <= mem.len(),
                mem == members@,
                mem == lists[order@[step as int] as int],
                step < n,
                n == order@.len(),
                d == base@.len(),
                h == half as u64,
                half >= 1,
                (total + 1) * half <= u64::MAX,
                total + 1 <= u64::MAX,
                stepped_len(lists, order@, (step + 1) as nat) <= total,
                forall|q: int| 0 <= q < d ==> #[trigger] base@[q] < half,
                forall|a: int| 0 <= a < mem.len() ==> #[trigger] mem[a] < d,
                current@.len() == d,
                counts@.len() == d,
                last@.len() == d,
                forall|q: int|
                    0 <= q < d ==> #[trigger] current@[q] as nat == base@[q] as nat + half * (group_moves(
                        lists,
                        order@,
                        step as nat,
                        q as usize,
                    ) + count_in(mem.take(m as int), q as usize)),
                forall|q: int|
                    0 <= q < d ==> #[trigger] counts@[q] as nat == group_moves(
                        lists,
                        order@,
                        step as nat,
                        q as usize,
                    ) + count_in(mem.take(m as int), q as usize),
                forall|q: int|
                    0 <= q < d ==> #[trigger] last@[q] == if count_in(mem.take(m as int), q as usize) > 0 {
                        step
                    } else {
                        last_move(lists, order@, step as nat, q as usize)
                    },
            decreases mem.len() - m,
        {
            let f = members[m];
            let ghost gm = group_moves(lists, order@, step as nat, f);
            let ghost cm = count_in(mem.take(m as int), f);
            proof {
                lemma_group_moves_le(lists, order@, step as nat, f);
                lemma_count_in_le_len(mem.take(m as int), f);
                assert(gm + cm + 1 <= total);
                assert(current@[f as int] as nat == base@[f as int] as nat + half * (gm + cm));
                assert(base@[f as int] + half * (gm + cm) + half <= (total + 1) * half) by (nonlinear_arith)
                    requires
                        gm + cm + 1 <= total,
                        base@[f as int] < half,
                ;
                assert forall|q: int| 0 <= q < d implies #[trigger] count_in(mem.take(m + 1), q as usize)
                    == count_in(mem.take(m as int), q as usize) + if q == f {
                    1nat
                } else {
                    0nat
                } by {
                    lemma_count_in_take(mem, m as int, q as usize);
                }
            }
            let x = current[f] + h;
            current.set(f, x);
            let c = counts[f] + 1;
            counts.set(f, c);
            last.set(f, step);
            proof {
                assert forall|q: int| 0 <= q < d implies #[trigger] current@[q] as nat == base@[q] as nat
                    + half * (group_moves(lists, order@, step as nat, q as usize) + count_in(
                    mem.take(m + 1),
                    q as usize,
                )) by {
                    let g0 = group_moves(lists, order@, step as nat, q as usize);
                    let c0 = count_in(mem.take(m as int), q as usize);
                    assert(half * (g0 + c0 + 1) == half * (g0 + c0) + half) by (nonlinear_arith);
                }
            }
            m = m + 1;
        }
        proof {
            assert(mem.take(mem.len() as int) =~= mem);
        }
        points.push(current.clone());
        proof {
            assert(points@[step + 1]@ =~= current@);
        }
        step = step + 1;
    }
    (points, counts, last)
}

/// Words one grouped trajectory draws: `d` base levels and a shuffle of
/// the `n` groups.
pub open spec fn grouped_trajectory_cost(d: nat, n: nat) -> nat {
    d + shuffle_cost(n)
}

/// Grouped trajectory whose draws start at keystream position `pos`: its
/// base levels, its group order, and its walk.
pub open spec fn drawn_grouped_trajectory(
    seed: Seq<u8>,
    stream: u64,
    pos: int,
    d: nat,
    levels: u32,
    lists: Seq<Seq<usize>>,
    base: Seq<u32>,
    order: Seq<usize>,
    points: Seq<Vec<u64>>,
    counts: Seq<u64>,
    last: Seq<usize>,
) -> bool {
    let n = lists.len();
    &&& drawn_base(seed, stream, pos, levels, d, base)
    &&& order == fisher_yates(n, keystream(seed, stream, pos + d, shuffle_cost(n)))
    &&& is_permutation(order, n)
    &&& grouped_trajectory(base, lists, order, (levels / 2) as nat, points, counts, last)
}

/// Builds `r` grouped Morris trajectories: each steps every group once,
/// in a shuffled order, moving all factors of the group together, so a
/// trajectory has `n_groups + 1` points. Trajectory `t` draws its `d` base
/// levels and then its shuffle of the groups from the keystream, starting
/// `t · (d + (n_groups − 1))` words past the initial position.
pub fn build_grouped_morris_trajectories(
    groups: &[Group],
    d: usize,
    r: usize,
    levels: u32,
    rng: &mut RngState,
) -> (res: Result<MorrisGrid, MorrisError>)
    requires
        morris_check(d, r, levels) is Ok ==> {
            &&& old(rng).word_pos + r * grouped_trajectory_cost(d as nat, groups@.len() as nat)
                <= u128::MAX
            &&& forall|g: int, m: int|
                0 <= g < groups@.len() && 0 <= m < groups@[g].factor_indices@.len()
                    ==> #[trigger] groups@[g].factor_indices@[m] < d
            &&& (total_len(factor_lists(groups@)) + 1) * (levels / 2) as nat <= u64::MAX
        },
    ensures
        res is Err <==> morris_check(d, r, levels) is Err,
        res matches Err(e) ==> morris_check(d, r, levels) == Err::<(), MorrisError>(e) && *final(rng)
            == *old(rng),
        res matches Ok(g) ==> {
            &&& g.r == r && g.d == d && g.levels == levels
            &&& g.group_order matches Some(go) && go@.len() == r && forall|t: int|
                #![trigger go@[t]]
                0 <= t < r ==> drawn_grouped_trajectory(
                    old(rng).seed@,
                    old(rng).stream,
                    old(rng).word_pos + t * grouped_trajectory_cost(d as nat, groups@.len() as nat),
                    d as nat,
                    levels,
                    factor_lists(groups@),
                    g.base_levels@[t]@,
                    go@[t]@,
                    g.points@[t]@,
                    g.step_counts@[t]@,
                    g.factor_order@[t]@,
                )
            &&& g.base_levels@.len() == r && g.factor_order@.len() == r
            &&& g.points@.len() == r && g.step_counts@.len() == r
            &&& final(rng).seed == old(rng).seed && final(rng).stream == old(rng).stream
            &&& final(rng).word_pos == old(rng).word_pos + r * grouped_trajectory_cost(
                d as nat,
                groups@.len() as nat,
            )
        },
{
    check_args(d, r, levels)?;
    let n_groups = groups.len();
    let half: u32 = levels / 2;
    let ghost start = rng.word_pos as int;
    let ghost cost = grouped_trajectory_cost(d as nat, n_groups as nat);
    let ghost lists = factor_lists(groups@);
    let mut base_levels: Vec<Vec<u32>> = Vec::new();
    let mut points: Vec<Vec<Vec<u64>>> = Vec::new();
    let mut step_counts: Vec<Vec<u64>> = Vec::new();
    let mut factor_order: Vec<Vec<usize>> = Vec::new();
    let mut group_order: Vec<Vec<usize>> = Vec::new();
    let mut t: usize = 0;
    while t < r
        invariant
            levels >= 2,
            half == levels / 2,
            n_groups == groups@.len(),
            lists == factor_lists(groups@),
            cost == grouped_trajectory_cost(d as nat, n_groups as nat),
            start == old(rng).word_pos,
            start + r * cost <= u128::MAX,
            forall|g: int, m: int|
                0 <= g < groups@.len() && 0 <= m < groups@[g].factor_indices@.len()
                    ==> #[trigger] groups@[g].factor_indices@[m] < d,
            (total_len(lists) + 1) * half <= u64::MAX,
            t <= r,
            rng.seed == old(rng).seed,
            rng.stream == old(rng).stream,
            rng.word_pos == start + t * cost,
            base_levels@.len() == t,
            factor_order@.len() == t,
            points@.len() == t,
            step_counts@.len() == t,
            group_order@.len() == t,
            forall|a: int|
                #![trigger group_order@[a]]
                0 <= a < t ==> drawn_grouped_trajectory(
                    old(rng).seed@,
                    old(rng).stream,
                    start + a * cost,
                    d as nat,
                    levels,
                    lists,
                    base_levels@[a]@,
                    group_order@[a]@,
                    points@[a]@,
                    step_counts@[a]@,
                    factor_order@[a]@,
                ),
        decreases r - t,
    {
        proof {
            assert((t + 1) * cost <= r * cost) by (nonlinear_arith)
                requires
                    t + 1 <= r,
            ;
            assert((t + 1) * cost == t * cost + cost) by (nonlinear_arith);
        }
        let ghost pos = rng.word_pos as int;
        let base = draw_base(d, levels, rng);
        let perm = random_permutation(n_groups, rng);
        let (traj, counts, last) = grouped_points(&base, groups, &perm, half);
        proof {
            assert(pos == start + t * cost);
        }
        base_levels.push(base);
        points.push(traj);
        step_counts.push(counts);
        factor_order.push(last);
        group_order.push(perm);
        t = t + 1;
    }
    Ok(MorrisGrid {
        base_levels,
        points,
        step_counts,
        factor_order,
        group_order: Some(group_order),
        r,
        d,
        levels,
    })
}

/// Every point of an ungrouped trajectory lies on the grid: its levels
/// stay within `0..=p − 1`, and after the last step every factor sits
/// exactly `p/2` levels above its base.
pub proof fn law_oat_levels_on_grid(base: Seq<u32>, order: Seq<usize>, levels: u32, k: int, j: int)
    requires
        levels >= 2,
        levels % 2 == 0,
        is_permutation(order, base.len()),
        forall|q: int| 0 <= q < base.len() ==> #[trigger] base[q] < levels / 2,
        0 <= k <= base.len(),
        0 <= j < base.len(),
    ensures
        oat_level(base[j], order, (levels / 2) as nat, k, j as usize) <= levels - 1,
        oat_level(base[j], order, (levels / 2) as nat, base.len() as int, j as usize) == base[j] + levels
            / 2,
{
    let half = (levels / 2) as nat;
    let d = base.len();
    lemma_count_in_distinct_prefix(order, k, j as usize);
    let c = count_in(order.take(k), j as usize);
    assert(half * c <= half) by (nonlinear_arith)
        requires
            c <= 1,
    ;
    lemma_count_in_distinct_prefix(order, d as int, j as usize);
    assert(order.contains(j as usize));
    let a = choose|a: int| 0 <= a < order.len() && order[a] == j as usize;
    assert(order.take(d as int) =~= order);
    assert(count_in(order.take(d as int), j as usize) == 1);
}

/// Between consecutive points of a grouped trajectory every factor moves
/// by `p/2` levels per entry it has in the group stepped there, and no
/// other factor moves.
pub proof fn law_grouped_step(
    base: u32,
    lists: Seq<Seq<usize>>,
    order: Seq<usize>,
    half: nat,
    k: nat,
    j: usize,
)
    requires
        k < order.len(),
    ensures
        grouped_level(base, lists, order, half, k + 1, j) == grouped_level(base, lists, order, half, k, j)
            + half * count_in(lists[order[k as int] as int], j),
{
    let g0 = group_moves(lists, order, k, j);
    let c = count_in(lists[order[k as int] as int], j);
    assert(group_moves(lists, order, k + 1, j) == g0 + c);
    assert(half * (g0 + c) == half * g0 + half * c) by (nonlinear_arith);
}

} // verus!
