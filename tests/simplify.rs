use curved::simplify::{simplify, SimplifyError};

fn pts(rows: &[&[i16]]) -> Vec<Vec<i16>> {
    rows.iter().map(|r| r.to_vec()).collect()
}

fn zigzag() -> Vec<Vec<i16>> {
    (0..20i16).map(|i| vec![i, (i * i) % 17 - 8]).collect()
}

#[test]
fn at_most_two_points_are_all_kept() {
    for eps in [0, 1, 100] {
        assert_eq!(simplify(&Vec::new(), eps), Ok(vec![]));
        assert_eq!(simplify(&pts(&[&[3, 4]]), eps), Ok(vec![0]));
        assert_eq!(simplify(&pts(&[&[3, 4], &[-7, 9]]), eps), Ok(vec![0, 1]));
    }
}

#[test]
fn ends_kept_and_indices_increasing() {
    for eps in [0, 1, 2, 3, 5, 8, 1000] {
        let v = simplify(&zigzag(), eps).unwrap();
        assert_eq!(v[0], 0);
        assert_eq!(*v.last().unwrap(), 19);
        assert!(v.windows(2).all(|w| w[0] < w[1]));
        assert!(v.iter().all(|&i| i < 20));
    }
}

#[test]
fn zigzag_exact_results() {
    let p = zigzag();
    assert_eq!(simplify(&p, 0).unwrap(), (0..20).collect::<Vec<usize>>());
    assert_eq!(simplify(&p, 1).unwrap(), vec![0, 4, 6, 7, 8, 10, 11, 13, 16, 17, 19]);
    assert_eq!(simplify(&p, 3).unwrap(), vec![0, 4, 6, 7, 11, 13, 16, 19]);
    assert_eq!(simplify(&p, 5).unwrap(), vec![0, 4, 6, 13, 19]);
}

#[test]
fn rerun_on_kept_points_keeps_them_all() {
    let p = zigzag();
    for eps in [1, 2, 3, 5] {
        let v = simplify(&p, eps).unwrap();
        let sub: Vec<Vec<i16>> = v.iter().map(|&i| p[i].clone()).collect();
        assert_eq!(simplify(&sub, eps).unwrap(), (0..v.len()).collect::<Vec<usize>>());
    }
}

#[test]
fn larger_tolerance_keeps_no_more() {
    let p = zigzag();
    let mut prev = simplify(&p, 0).unwrap();
    for eps in 1..12 {
        let v = simplify(&p, eps).unwrap();
        assert!(v.len() <= prev.len());
        assert!(v.iter().all(|i| prev.contains(i)));
        prev = v;
    }
}

#[test]
fn identical_points_reduce_to_ends() {
    let p = vec![vec![5i16, -2, 7]; 9];
    for eps in [0, 1, 50] {
        assert_eq!(simplify(&p, eps).unwrap(), vec![0, 8]);
    }
}

#[test]
fn near_collinear_start_scenario() {
    // (0,0), (1,0.1), (2,-0.1), (3,5), (4,6), (5,7) in tenths, tolerance 1.0
    let p = pts(&[&[0, 0], &[10, 1], &[20, -1], &[30, 50], &[40, 60], &[50, 70]]);
    assert_eq!(simplify(&p, 10).unwrap(), vec![0, 2, 3, 5]);
}

#[test]
fn straight_line_of_thousand_points() {
    let p: Vec<Vec<i16>> = (0..1000i16).map(|i| vec![i, 2 * i]).collect();
    assert_eq!(simplify(&p, 1).unwrap(), vec![0, 999]);
    let q: Vec<Vec<i16>> = (0..1000i16).map(|i| vec![i, -i, 3]).collect();
    assert_eq!(simplify(&q, 1).unwrap(), vec![0, 999]);
}

#[test]
fn ties_go_to_lower_index() {
    let p = pts(&[&[0, 0], &[1, 5], &[2, -5], &[3, 0]]);
    let first = simplify(&p, 3).unwrap();
    assert_eq!(first, vec![0, 1, 3]);
    for _ in 0..5 {
        assert_eq!(simplify(&p, 3).unwrap(), first);
    }
}

#[test]
fn zero_length_chord_uses_point_distance() {
    // first and last coincide; the farthest point is kept when beyond tolerance
    let p = pts(&[&[0, 0], &[3, 4], &[1, 1], &[0, 0]]);
    assert_eq!(simplify(&p, 4).unwrap(), vec![0, 1, 3]);
    assert_eq!(simplify(&p, 5).unwrap(), vec![0, 3]);
}

#[test]
fn three_dimensional_points() {
    let p = pts(&[&[0, 0, 0], &[1, 1, 9], &[2, 2, 0], &[3, 3, 0]]);
    assert_eq!(simplify(&p, 2).unwrap(), vec![0, 1, 3]);
    assert_eq!(simplify(&p, 1).unwrap(), vec![0, 1, 2, 3]);
    assert_eq!(simplify(&p, 10).unwrap(), vec![0, 3]);
}

#[test]
fn negative_tolerance_is_rejected() {
    assert_eq!(simplify(&zigzag(), -1), Err(SimplifyError::NegativeEpsilon));
    assert_eq!(simplify(&Vec::new(), -5), Err(SimplifyError::NegativeEpsilon));
}

#[test]
fn ragged_rows_are_rejected() {
    let p = pts(&[&[0, 0], &[1, 1, 1], &[2, 2]]);
    assert_eq!(simplify(&p, 1), Err(SimplifyError::RaggedRows));
}

#[test]
fn zero_dimension_is_rejected() {
    let p = pts(&[&[], &[], &[]]);
    assert_eq!(simplify(&p, 1), Err(SimplifyError::ZeroDimension));
}
