use salib::iman_conover::{arrange_by_ranks, check_iman_conover_shape, ranks_from_order, ImanConoverShapeError};

/// Ordinal ranks of `data`: sort positions by value, ties by position.
fn ordinal_ranks(data: &[f64]) -> Vec<usize> {
    let mut order: Vec<usize> = (0..data.len()).collect();
    order.sort_by(|&a, &b| data[a].partial_cmp(&data[b]).unwrap().then(a.cmp(&b)));
    ranks_from_order(&order)
}

#[test]
fn ordinal_ranks_assigns_one_through_n() {
    assert_eq!(ordinal_ranks(&[3.0, 1.0, 2.0]), vec![3, 1, 2]);
}

#[test]
fn ordinal_ranks_breaks_ties_by_input_order() {
    assert_eq!(ordinal_ranks(&[2.0, 1.0, 2.0]), vec![2, 1, 3]);
}

#[test]
fn output_columns_have_same_multiset_as_input() {
    let input = vec![0.9, 0.1, 0.5, 0.7, 0.3];
    let scores = [0.2, -1.0, 3.0, 0.0, 1.5];
    let ranks = ordinal_ranks(&scores);
    let mut sorted = input.clone();
    sorted.sort_by(|a, b| a.partial_cmp(b).unwrap());
    let out = arrange_by_ranks(&sorted, &ranks);
    let mut a = out.clone();
    a.sort_by(|x, y| x.partial_cmp(y).unwrap());
    assert_eq!(a, sorted);
    // The output follows the rank pattern of the scores.
    assert_eq!(out, vec![0.5, 0.1, 0.9, 0.3, 0.7]);
}

#[test]
fn ranks_from_identity_order_are_one_based_positions() {
    assert_eq!(ranks_from_order(&vec![0, 1, 2, 3]), vec![1, 2, 3, 4]);
    assert_eq!(ranks_from_order(&vec![]), Vec::<usize>::new());
}

#[test]
fn empty_input_errors() {
    assert_eq!(check_iman_conover_shape(0, 3, 3, 3).unwrap_err(), ImanConoverShapeError::EmptyInput);
}

#[test]
fn iman_conover_zero_d_errors() {
    assert_eq!(check_iman_conover_shape(10, 0, 0, 0).unwrap_err(), ImanConoverShapeError::ZeroD);
}

#[test]
fn non_square_target_errors() {
    let err = check_iman_conover_shape(10, 3, 3, 4).unwrap_err();
    assert!(matches!(err, ImanConoverShapeError::NonSquareTarget { .. }));
    assert_eq!(err, ImanConoverShapeError::NonSquareTarget { d: 3, rows: 3, cols: 4 });
    assert_eq!(check_iman_conover_shape(10, 3, 3, 3), Ok(()));
}
