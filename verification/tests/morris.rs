use salib::morris::{build_grouped_morris_trajectories, build_morris_trajectories, Group, MorrisError, MorrisGrid};
use salib::rng::RngState;

fn fresh_rng() -> RngState {
    RngState::from_seed([0x42; 32])
}

/// Unit value of grid level `level` on a `levels`-point grid.
fn unit(level: u64, levels: u32) -> f64 {
    level as f64 / f64::from(levels - 1)
}

fn build(d: usize, r: usize, levels: u32) -> MorrisGrid {
    let mut rng = fresh_rng();
    build_morris_trajectories(d, r, levels, &mut rng).unwrap()
}

#[test]
fn zero_r_returns_error() {
    let mut rng = fresh_rng();
    let err = build_morris_trajectories(3, 0, 4, &mut rng).unwrap_err();
    assert_eq!(err, MorrisError::ZeroR);
}

#[test]
fn zero_d_returns_error() {
    let mut rng = fresh_rng();
    let err = build_morris_trajectories(0, 10, 4, &mut rng).unwrap_err();
    assert_eq!(err, MorrisError::ZeroD);
}

#[test]
fn levels_one_returns_error() {
    let mut rng = fresh_rng();
    let err = build_morris_trajectories(3, 10, 1, &mut rng).unwrap_err();
    assert_eq!(err, MorrisError::LevelsBelowTwo { levels: 1 });
}

#[test]
fn levels_odd_returns_error() {
    let mut rng = fresh_rng();
    let err = build_morris_trajectories(3, 10, 5, &mut rng).unwrap_err();
    assert_eq!(err, MorrisError::LevelsOdd { levels: 5 });
}

#[test]
fn output_shape_is_r_by_d_plus_one_by_d() {
    let t = build(5, 10, 4);
    assert_eq!(t.points.len(), 10);
    for traj in &t.points {
        assert_eq!(traj.len(), 6);
        assert!(traj.iter().all(|p| p.len() == 5));
    }
    assert_eq!(t.step_counts.len(), 10);
    assert_eq!(t.factor_order.len(), 10);
    assert!(t.factor_order.iter().all(|o| o.len() == 5));
    assert_eq!(t.r, 10);
    assert_eq!(t.d, 5);
    assert_eq!(t.levels, 4);
    assert!(t.group_order.is_none());
}

#[test]
fn consecutive_points_differ_in_exactly_one_factor() {
    let t = build(8, 50, 4);
    for r_idx in 0..t.r {
        for k in 0..t.d {
            let before = &t.points[r_idx][k];
            let after = &t.points[r_idx][k + 1];
            let differ_count = (0..t.d).filter(|&j| before[j] != after[j]).count();
            assert_eq!(differ_count, 1, "trajectory {r_idx} step {k}");
            let moved = t.factor_order[r_idx][k];
            assert_eq!(after[moved], before[moved] + 2);
        }
    }
}

#[test]
fn factor_order_visits_each_factor_exactly_once() {
    let t = build(6, 20, 4);
    for r_idx in 0..t.r {
        let mut visited = t.factor_order[r_idx].clone();
        visited.sort_unstable();
        assert_eq!(visited, (0..t.d).collect::<Vec<usize>>(), "trajectory {r_idx}");
    }
}

#[test]
fn step_size_matches_saltelli_formula_at_levels_four() {
    // p = 4: Δ = 4 / (2·3) = 2/3, i.e. p/2 = 2 grid levels.
    let t = build(3, 10, 4);
    let expected_delta = 2.0 / 3.0;
    for r_idx in 0..t.r {
        for j in 0..t.d {
            assert_eq!(t.step_counts[r_idx][j], 1);
            let last = t.points[r_idx][t.d][j];
            let first = t.points[r_idx][0][j];
            let d_val = unit(last, 4) - unit(first, 4);
            assert!((d_val - expected_delta).abs() < 1e-12, "delta = {d_val}");
        }
    }
}

#[test]
fn all_points_in_unit_interval() {
    let cases = [(5usize, 30usize, 4u32), (3, 30, 6), (3, 30, 8), (3, 30, 10)];
    for (d, r, levels) in cases {
        let t = build(d, r, levels);
        for traj in &t.points {
            for p in traj {
                for &lvl in p {
                    assert!(lvl <= u64::from(levels - 1), "level {lvl} off the {levels}-point grid");
                    let v = unit(lvl, levels);
                    assert!((0.0..=1.0).contains(&v));
                }
            }
        }
    }
}

#[test]
fn same_rngstate_produces_identical_trajectories() {
    let mut r1 = fresh_rng();
    let mut r2 = fresh_rng();
    let t1 = build_morris_trajectories(4, 20, 4, &mut r1).unwrap();
    let t2 = build_morris_trajectories(4, 20, 4, &mut r2).unwrap();
    assert_eq!(t1.points, t2.points);
    assert_eq!(t1.step_counts, t2.step_counts);
    assert_eq!(t1.factor_order, t2.factor_order);
}

#[test]
fn distinct_streams_produce_different_trajectories() {
    let mut r1 = RngState::from_parts([0; 32], 1, 0);
    let mut r2 = RngState::from_parts([0; 32], 2, 0);
    let t1 = build_morris_trajectories(4, 20, 4, &mut r1).unwrap();
    let t2 = build_morris_trajectories(4, 20, 4, &mut r2).unwrap();
    assert_ne!(t1.points, t2.points);
}

#[test]
fn morris_unit_sample_advances_rng_word_pos() {
    let mut rng = fresh_rng();
    let initial = rng.word_pos;
    let _ = build_morris_trajectories(4, 10, 4, &mut rng).unwrap();
    assert!(rng.word_pos > initial);
    // d base levels and d − 1 shuffle draws per trajectory.
    assert_eq!(rng.word_pos, initial + 10 * (4 + 3));
}

#[test]
fn base_points_are_on_lower_half_grid() {
    let t = build(5, 30, 4);
    for r_idx in 0..t.r {
        for j in 0..t.d {
            let base = unit(t.points[r_idx][0][j], 4);
            let on_grid = base == 0.0 || (base - 1.0 / 3.0).abs() < 1e-12;
            assert!(on_grid, "base[{r_idx},{j}] = {base} not in {{0, 1/3}}");
            assert_eq!(t.points[r_idx][0][j], u64::from(t.base_levels[r_idx][j]));
        }
    }
}

#[test]
fn level_six_yields_three_valid_base_levels() {
    let t = build(3, 30, 6);
    for r_idx in 0..t.r {
        for j in 0..t.d {
            let base = unit(t.points[r_idx][0][j], 6);
            let on_grid = base == 0.0 || (base - 0.2).abs() < 1e-12 || (base - 0.4).abs() < 1e-12;
            assert!(on_grid, "base[{r_idx},{j}] = {base}");
        }
    }
}

#[test]
fn r_one_produces_one_trajectory() {
    let t = build(3, 1, 4);
    assert_eq!(t.r, 1);
    assert_eq!(t.points.len(), 1);
    assert_eq!(t.points[0].len(), 4);
}

#[test]
fn d_one_produces_two_point_trajectories() {
    let t = build(1, 10, 4);
    assert_eq!(t.points.len(), 10);
    assert!(t.points.iter().all(|traj| traj.len() == 2 && traj[0].len() == 1));
}

#[test]
fn errors_leave_rng_untouched() {
    let mut rng = fresh_rng();
    let before = rng;
    assert!(build_morris_trajectories(3, 10, 5, &mut rng).is_err());
    assert_eq!(rng, before);
}

fn groups() -> Vec<Group> {
    vec![
        Group { name: "g0".to_string(), factor_indices: vec![0, 2] },
        Group { name: "g1".to_string(), factor_indices: vec![1] },
        Group { name: "g2".to_string(), factor_indices: vec![3, 4] },
    ]
}

#[test]
fn grouped_trajectories_step_whole_groups() {
    let gs = groups();
    let mut rng = fresh_rng();
    let t = build_grouped_morris_trajectories(&gs, 5, 12, 4, &mut rng).unwrap();
    let go = t.group_order.as_ref().unwrap();
    assert_eq!(rng.word_pos, 12 * (5 + 2));
    for r_idx in 0..t.r {
        assert_eq!(t.points[r_idx].len(), gs.len() + 1);
        let mut order = go[r_idx].clone();
        order.sort_unstable();
        assert_eq!(order, vec![0, 1, 2]);
        for k in 0..gs.len() {
            let g = &gs[go[r_idx][k]];
            for j in 0..5 {
                let step = t.points[r_idx][k + 1][j] - t.points[r_idx][k][j];
                let want = if g.factor_indices.contains(&j) { 2 } else { 0 };
                assert_eq!(step, want, "trajectory {r_idx} step {k} factor {j}");
            }
            for &f in &g.factor_indices {
                assert_eq!(t.factor_order[r_idx][f], k);
            }
        }
        assert!(t.step_counts[r_idx].iter().all(|&c| c == 1));
    }
}

#[test]
fn grouped_errors_match_ungrouped_checks() {
    let gs = groups();
    let mut rng = fresh_rng();
    assert_eq!(build_grouped_morris_trajectories(&gs, 5, 0, 4, &mut rng).unwrap_err(), MorrisError::ZeroR);
    assert_eq!(build_grouped_morris_trajectories(&gs, 0, 3, 4, &mut rng).unwrap_err(), MorrisError::ZeroD);
    assert_eq!(
        build_grouped_morris_trajectories(&gs, 5, 3, 7, &mut rng).unwrap_err(),
        MorrisError::LevelsOdd { levels: 7 }
    );
    assert_eq!(rng.word_pos, 0);
}
