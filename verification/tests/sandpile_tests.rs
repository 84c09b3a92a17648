use sandpile::Sandpile;
use sandpile::sandpile::DataLengthMismatch;
use sandpile::sandpile::ShapeMismatch;

fn grid(cols: usize, rows: usize, v: Vec<i64>) -> Sandpile {
    Sandpile::from_heights(cols, rows, v).unwrap()
}

fn total_height(g: &Sandpile) -> i64 {
    let mut t: i64 = 0;
    for i in 0..g.row_count() {
        for j in 0..g.col_count() {
            t += g.height_at(i, j);
        }
    }
    t
}

#[test]
fn test_equality() {
    let a = Sandpile::new(3, 3, None).unwrap();
    let b = Sandpile::new(3, 3, None).unwrap();

    assert_eq!(a, b)
}

#[test]
fn test_data_initialization() {
    let a = grid(3, 3, vec![1, 1, 1, 1, 2, 1, 2, 2, 2]);

    let b = Sandpile::new(3, 3, Some(vec![1, 1, 1, 1, 2, 1, 2, 2, 2])).unwrap();

    assert_eq!(a, b)
}

#[test]
fn stabilization_test_1() {
    let a = grid(3, 3, vec![4, 4, 4, 0, 0, 0, 1, 1, 1]);

    let b = grid(3, 3, vec![1, 2, 1, 1, 1, 1, 1, 1, 1]);

    assert_eq!(a.stabilize(), b);
}

#[test]
fn stabilization_test_2() {
    let a = grid(3, 3, vec![4, 4, 4, 4, 4, 4, 2, 2, 2]);

    let b = grid(3, 3, vec![2, 3, 2, 2, 3, 2, 3, 3, 3]);

    assert_eq!(a.stabilize(), b);
}

#[test]
fn construct_returns_stable_grid() {
    let a = Sandpile::new(3, 3, Some(vec![10, 10, 10, 10, 10, 10, 10, 10, 10])).unwrap();
    for i in 0..3 {
        for j in 0..3 {
            assert!(a.height_at(i, j) < 4);
        }
    }
}

#[test]
fn add_returns_stable_grid() {
    let a = Sandpile::new(3, 3, Some(vec![3; 9])).unwrap();
    let b = Sandpile::new(3, 3, Some(vec![3; 9])).unwrap();
    let c = a.add(b).unwrap();
    for i in 0..3 {
        for j in 0..3 {
            assert!(c.height_at(i, j) < 4);
        }
    }
}

#[test]
fn stabilize_is_idempotent() {
    let v = vec![9, 0, 2, 7, 1, 0, 0, 5, 4];
    let once = grid(3, 3, v.clone()).stabilize();
    let twice = grid(3, 3, v).stabilize().stabilize();
    assert_eq!(once, twice);
}

#[test]
fn topple_pass_order_independent() {
    let v = vec![4, 0, 4, 0, 6, 0, 4, 0, 4];
    let g1 = grid(3, 3, v.clone());
    let q1 = g1.get_job_queue();
    let r1 = g1.topple_pass(q1);

    let g2 = grid(3, 3, v);
    let mut q2 = g2.get_job_queue();
    q2.reverse();
    let r2 = g2.topple_pass(q2);

    assert_eq!(r1, r2);
    assert_eq!(r1.stabilize(), r2.stabilize());
}

#[test]
fn mass_lost_matches_boundary_spills() {
    // One pass fires the two corners (spill 2 each) and the top edge cell
    // (spill 1): total height must drop by exactly 5.
    let before = grid(3, 3, vec![4, 4, 4, 0, 0, 0, 1, 1, 1]);
    assert_eq!(total_height(&before), 15);
    let after = before.stabilize();
    assert_eq!(total_height(&after), 10);
}

#[test]
fn interior_topple_conserves_mass() {
    // Only the centre cell of a 5x5 grid fires: no unit leaves the grid.
    let mut v = vec![0i64; 25];
    v[12] = 4;
    let before = grid(5, 5, v);
    assert_eq!(total_height(&before), 4);
    let after = before.stabilize();
    assert_eq!(total_height(&after), 4);
}

#[test]
fn cascading_all_fours() {
    let a = grid(3, 3, vec![4; 9]).stabilize();
    let b = grid(3, 3, vec![0, 3, 0, 3, 0, 3, 0, 3, 0]);
    assert_eq!(a, b);
}

#[test]
fn default_equals_three_by_three_zero() {
    assert_eq!(Sandpile::default(), Sandpile::new(3, 3, None).unwrap());
}

#[test]
fn construct_rejects_wrong_data_length() {
    match Sandpile::new(3, 3, Some(vec![1, 2, 3])) {
        Ok(_) => panic!("a grid was built from data of the wrong length"),
        Err(e) => {
            assert_eq!(e, DataLengthMismatch { expected: 9, actual: 3 });
        },
    }
}

#[test]
fn from_heights_rejects_wrong_data_length() {
    match Sandpile::from_heights(3, 3, vec![1]) {
        Ok(_) => panic!("a grid was built from data of the wrong length"),
        Err(e) => {
            assert_eq!(e, DataLengthMismatch { expected: 9, actual: 1 });
        },
    }
}

#[test]
fn add_rejects_shape_mismatch() {
    let a = Sandpile::new(2, 2, None).unwrap();
    let b = Sandpile::new(3, 3, None).unwrap();
    match a.add(b) {
        Ok(_) => panic!("grids of different shapes were added"),
        Err(e) => {
            assert_eq!(
                e,
                ShapeMismatch {
                    left_rows: 2,
                    left_cols: 2,
                    right_rows: 3,
                    right_cols: 3,
                },
            );
        },
    }
}

#[test]
fn add_sums_cells_before_stabilizing() {
    let a = Sandpile::new(3, 3, Some(vec![1; 9])).unwrap();
    let b = Sandpile::new(3, 3, Some(vec![2; 9])).unwrap();
    let c = a.add(b).unwrap();
    assert_eq!(c, grid(3, 3, vec![3; 9]));
}

#[test]
fn single_cell_grid_stabilizes() {
    let a = Sandpile::new(1, 1, Some(vec![7])).unwrap();
    assert_eq!(a.height_at(0, 0), 3);
}

#[test]
fn single_row_grid_spills_at_both_ends() {
    let a = Sandpile::new(3, 1, Some(vec![5, 0, 0])).unwrap();
    assert_eq!(a, grid(3, 1, vec![1, 1, 0]));
}

#[test]
fn negative_heights_are_kept() {
    let a = Sandpile::new(2, 2, Some(vec![-5, 0, 0, 0])).unwrap();
    assert_eq!(a.height_at(0, 0), -5);
}

#[test]
fn unequal_grids_compare_unequal() {
    let a = grid(2, 2, vec![0, 1, 2, 3]);
    let b = grid(2, 2, vec![0, 1, 2, 2]);
    let c = grid(2, 1, vec![0, 1]);
    assert_ne!(a, b);
    assert_ne!(a, c);
}

#[test]
fn compatibility_checks_both_dimensions() {
    let a = Sandpile::new(2, 3, None).unwrap();
    let b = Sandpile::new(2, 3, None).unwrap();
    let c = Sandpile::new(3, 2, None).unwrap();
    assert!(a.is_add_compatible(&b));
    assert!(!a.is_add_compatible(&c));
}

#[test]
fn accessors_report_shape_and_heights() {
    let a = grid(3, 2, vec![0, 1, 2, 3, -1, -2]);
    assert_eq!(a.row_count(), 2);
    assert_eq!(a.col_count(), 3);
    assert_eq!(a.height_at(0, 0), 0);
    assert_eq!(a.height_at(0, 2), 2);
    assert_eq!(a.height_at(1, 0), 3);
    assert_eq!(a.height_at(1, 2), -2);
}
