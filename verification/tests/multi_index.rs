use salib::multi_index::{enumerate_total_degree, total_degree_basis_size, MultiIndex, MultiIndexError};

#[test]
fn total_degree_sums_indices() {
    let mi = MultiIndex::new(vec![2, 0, 3]);
    assert_eq!(mi.total_degree(), 5);
    assert_eq!(mi.dim(), 3);
}

#[test]
fn zero_multi_index_detection() {
    assert!(MultiIndex::new(vec![0, 0, 0]).is_zero());
    assert!(!MultiIndex::new(vec![1, 0, 0]).is_zero());
}

#[test]
fn main_effect_detection() {
    assert!(MultiIndex::new(vec![3, 0, 0]).is_main_effect());
    assert!(MultiIndex::new(vec![0, 0, 5]).is_main_effect());
    assert!(!MultiIndex::new(vec![0, 0, 0]).is_main_effect());
    assert!(!MultiIndex::new(vec![1, 1, 0]).is_main_effect());
}

#[test]
fn active_factors_returns_nonzero_positions() {
    assert_eq!(MultiIndex::new(vec![2, 0, 3, 0]).active_factors(), vec![0, 2]);
    assert_eq!(MultiIndex::new(vec![0, 0, 0]).active_factors(), Vec::<usize>::new());
    assert_eq!(MultiIndex::new(vec![5]).active_factors(), vec![0]);
}

#[test]
fn multi_index_zero_d_errors() {
    assert_eq!(enumerate_total_degree(0, 3).unwrap_err(), MultiIndexError::ZeroD);
}

#[test]
fn count_matches_binomial_formula() {
    for d in 1..=6 {
        for p in 0..=5 {
            let basis = enumerate_total_degree(d, p).unwrap();
            let expected = total_degree_basis_size(d, p);
            assert_eq!(basis.len(), expected, "d={d}, p={p}");
        }
    }
}

#[test]
fn count_specific_cases() {
    assert_eq!(enumerate_total_degree(3, 4).unwrap().len(), 35);
    assert_eq!(enumerate_total_degree(2, 2).unwrap().len(), 6);
    assert_eq!(enumerate_total_degree(5, 0).unwrap().len(), 1);
    assert_eq!(enumerate_total_degree(1, 10).unwrap().len(), 11);
}

#[test]
fn first_index_is_zero_multi_index() {
    let basis = enumerate_total_degree(4, 3).unwrap();
    assert!(basis[0].is_zero());
}

#[test]
fn no_index_exceeds_max_degree() {
    let basis = enumerate_total_degree(3, 4).unwrap();
    for mi in &basis {
        assert!(mi.total_degree() <= 4, "found multi-index with |α| = {} > 4: {:?}", mi.total_degree(), mi);
    }
}

#[test]
fn enumeration_is_unique() {
    let basis = enumerate_total_degree(3, 3).unwrap();
    for i in 0..basis.len() {
        for j in (i + 1)..basis.len() {
            assert_ne!(basis[i], basis[j], "duplicate at i={i}, j={j}: {:?}", basis[i]);
        }
    }
}

#[test]
fn lex_order_first_index_varies_slowest() {
    let basis = enumerate_total_degree(3, 2).unwrap();
    assert_eq!(basis.len(), 10);
    assert_eq!(basis[0].indices, vec![0, 0, 0]);
    assert_eq!(basis[1].indices, vec![0, 0, 1]);
    assert_eq!(basis[2].indices, vec![0, 0, 2]);
}

#[test]
fn total_degree_basis_size_matches_pascal() {
    assert_eq!(total_degree_basis_size(3, 5), total_degree_basis_size(5, 3));
    assert_eq!(total_degree_basis_size(0, 5), 1);
    assert_eq!(total_degree_basis_size(5, 0), 1);
    assert_eq!(total_degree_basis_size(10, 4), 1001);
}

#[test]
fn full_lexicographic_order_for_three_factors_degree_two() {
    let basis = enumerate_total_degree(3, 2).unwrap();
    let expected: Vec<Vec<usize>> = vec![
        vec![0, 0, 0],
        vec![0, 0, 1],
        vec![0, 0, 2],
        vec![0, 1, 0],
        vec![0, 1, 1],
        vec![0, 2, 0],
        vec![1, 0, 0],
        vec![1, 0, 1],
        vec![1, 1, 0],
        vec![2, 0, 0],
    ];
    let got: Vec<Vec<usize>> = basis.iter().map(|m| m.indices.clone()).collect();
    assert_eq!(got, expected);
}

#[test]
fn basis_size_of_empty_degree_budget_is_one_per_dimension() {
    for d in 1..=8 {
        assert_eq!(total_degree_basis_size(d, 0), 1);
        assert_eq!(total_degree_basis_size(d, 1), d + 1);
    }
}

#[test]
fn basis_is_strictly_lexicographic() {
    let basis = enumerate_total_degree(4, 3).unwrap();
    for w in basis.windows(2) {
        assert!(w[0].indices < w[1].indices, "{:?} !< {:?}", w[0], w[1]);
    }
}

#[test]
fn basis_size_matches_factorial_formula() {
    fn fact(n: u128) -> u128 {
        (1..=n).product()
    }
    for d in 0..=8usize {
        for p in 0..=8usize {
            let want = fact((d + p) as u128) / (fact(d as u128) * fact(p as u128));
            assert_eq!(total_degree_basis_size(d, p) as u128, want, "d={d}, p={p}");
        }
    }
}
