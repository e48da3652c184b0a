use salib::plackett_burman::{build_plackett_burman, next_multiple_of_4, PbError};

#[test]
fn pb_dim3_gives_4_runs() {
    let pb = build_plackett_burman(3).unwrap();
    assert_eq!(pb.n_runs, 4);
    assert_eq!(pb.dim, 3);
    for row in &pb.matrix {
        for &v in row {
            assert!(v == 1 || v == -1);
        }
    }
}

#[test]
fn pb_orthogonality() {
    let pb = build_plackett_burman(7).unwrap();
    for i in 0..pb.dim {
        for k in 0..pb.dim {
            let dot: i64 = pb.matrix.iter().map(|row| i64::from(row[i]) * i64::from(row[k])).sum();
            let want = if i == k { pb.n_runs as i64 } else { 0 };
            assert_eq!(dot, want, "columns {i}, {k}");
        }
    }
}

#[test]
fn pb_zero_dim_error() {
    assert!(matches!(build_plackett_burman(0), Err(PbError::ZeroDim)));
}

#[test]
fn pb_dim_too_large_error() {
    assert!(matches!(build_plackett_burman(24), Err(PbError::DimTooLarge(24))));
}

#[test]
fn pb_all_entries_are_plus_minus_one() {
    for d in 1..=23 {
        let pb = build_plackett_burman(d).unwrap();
        assert_eq!(pb.matrix.len(), pb.n_runs);
        for row in &pb.matrix {
            assert_eq!(row.len(), d);
            for &v in row {
                assert!(v == 1 || v == -1, "dim={d}: got {v}");
            }
        }
    }
}

#[test]
fn pb_n_runs_is_correct() {
    assert_eq!(build_plackett_burman(1).unwrap().n_runs, 4);
    assert_eq!(build_plackett_burman(3).unwrap().n_runs, 4);
    assert_eq!(build_plackett_burman(4).unwrap().n_runs, 8);
    assert_eq!(build_plackett_burman(7).unwrap().n_runs, 8);
    assert_eq!(build_plackett_burman(11).unwrap().n_runs, 12);
    assert_eq!(build_plackett_burman(15).unwrap().n_runs, 16);
    assert_eq!(build_plackett_burman(19).unwrap().n_runs, 20);
    assert_eq!(build_plackett_burman(23).unwrap().n_runs, 24);
}

#[test]
fn pb_orthogonal_for_every_supported_dim() {
    for d in 1..=23 {
        let pb = build_plackett_burman(d).unwrap();
        for i in 0..d {
            for k in 0..d {
                let dot: i64 = pb.matrix.iter().map(|row| i64::from(row[i]) * i64::from(row[k])).sum();
                assert_eq!(dot, if i == k { pb.n_runs as i64 } else { 0 });
            }
        }
    }
}

#[test]
fn next_multiple_of_4_rounds_up() {
    assert_eq!(next_multiple_of_4(0), 0);
    assert_eq!(next_multiple_of_4(1), 4);
    assert_eq!(next_multiple_of_4(4), 4);
    assert_eq!(next_multiple_of_4(5), 8);
    assert_eq!(next_multiple_of_4(24), 24);
}

#[test]
fn pb_first_row_of_twelve_run_design_is_the_generator() {
    let pb = build_plackett_burman(11).unwrap();
    let want: Vec<i8> = vec![1, 1, -1, 1, 1, 1, -1, -1, -1, 1, -1];
    assert_eq!(pb.matrix[0], want);
    assert!(pb.matrix[11].iter().all(|&v| v == -1));
}
