use svg_path_ops::runs::{corner_runs, stretches};

#[test]
fn runs_are_cut_at_corners() {
    assert_eq!(corner_runs(&Vec::new()), Vec::<(usize, usize)>::new());
    assert_eq!(corner_runs(&vec![true]), vec![(0, 1)]);
    assert_eq!(corner_runs(&vec![false, false, true, false, true]), vec![(0, 2), (2, 4), (4, 5)]);
    assert_eq!(corner_runs(&vec![true, true, true]), vec![(0, 1), (1, 2), (2, 3)]);
}

#[test]
fn open_stretches_keep_their_runs() {
    let plan = stretches(&vec![(0, 2), (2, 3), (3, 6)], 6, false, true);
    assert_eq!(plan.runs, vec![vec![0, 1], vec![3, 4, 5]]);
    assert!(!plan.cyclic);
}

#[test]
fn closed_stretches_go_on_across_a_smooth_start() {
    // The first run goes on from the end of the last
    let plan = stretches(&vec![(0, 2), (2, 3), (3, 5)], 5, true, true);
    assert_eq!(plan.runs, vec![vec![3, 4, 0, 1]]);
    assert!(!plan.cyclic);
    // A corner at the start keeps them apart
    let plan = stretches(&vec![(0, 2), (2, 3), (3, 5)], 5, true, false);
    assert_eq!(plan.runs, vec![vec![0, 1], vec![3, 4]]);
}

#[test]
fn closed_subpath_without_corners_goes_all_round() {
    let plan = stretches(&vec![(0, 4)], 4, true, true);
    assert_eq!(plan.runs, vec![vec![0, 1, 2, 3]]);
    assert!(plan.cyclic);
    // A single piece has no seam
    let plan = stretches(&vec![(0, 1)], 1, true, true);
    assert!(plan.runs.is_empty());
    assert!(!plan.cyclic);
}
