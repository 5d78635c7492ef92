use round_eliminator::problem::Problem;

#[test]
fn orientation_triviality() {
    let mut p = Problem::from_string("A A B B B\n\nA B").unwrap();
    p.compute_triviality_given_orientation(2);
    assert!(p.orientation_trivial_sets.unwrap().len() > 0);

    let mut p = Problem::from_string("A A AB AB AB\n\nA B").unwrap();
    p.compute_triviality_given_orientation(2);
    assert!(p.orientation_trivial_sets.unwrap().len() > 0);

    let mut p = Problem::from_string("A A B B\n\nA B").unwrap();
    p.compute_triviality_given_orientation(3);
    assert!(p.orientation_trivial_sets.unwrap().len() == 0);
}

#[test]
fn orientation_coloring() {
    let mut p = Problem::from_string("A A B B B\nC C D D D\n\nA D\nB C").unwrap();
    p.compute_coloring_solvability_given_orientation(2);
    assert!(p.orientation_coloring_sets.unwrap().len() == 2);

    let mut p = Problem::from_string("A A A B B B\nC C C D D D\n\nA D\nB C").unwrap();
    p.compute_coloring_solvability_given_orientation(2);
    assert!(p.orientation_coloring_sets.unwrap().len() < 2);
}

#[test]
fn coloring() {
    let mut p = Problem::from_string("A A A\nB B B\nC C C\n\nA BC\nB C").unwrap();
    p.compute_coloring_solvability();
    assert_eq!(p.coloring_sets, Some(vec![vec![0], vec![1], vec![2]]));

    let mut p = Problem::from_string("A A A\nB B B\nC C C\nD D D\n\nA BC\nB C\nD A").unwrap();
    p.compute_coloring_solvability();
    assert_eq!(p.coloring_sets, Some(vec![vec![0], vec![1], vec![2]]));

    let mut p = Problem::from_string("A A A\nB B B\nC C D\nE E E\n\nA BCD\nB CD\nE A").unwrap();
    p.compute_coloring_solvability();
    assert_eq!(p.coloring_sets, Some(vec![vec![0], vec![1], vec![2, 3]]));

    let mut p = Problem::from_string("A AB AB\n\nA B").unwrap();
    p.compute_coloring_solvability();
    assert!(p.coloring_sets.unwrap().len() < 2);
}

#[test]
fn minimal_splits_of_a_line_with_two_labels() {
    let p = Problem::from_string("A A B\n\nA B").unwrap();
    let mut splits: Vec<(Vec<u32>, Vec<u32>)> =
        p.active.minimal_splits(1).into_iter().map(|(a, b)| (a.0, b.0)).collect();
    splits.sort();
    assert_eq!(splits, vec![(vec![0], vec![0, 1]), (vec![1], vec![0])]);
}

#[test]
fn minimal_splits_lists_every_split_once() {
    let p = Problem::from_string("A B B\n\nA B").unwrap();
    let mut splits: Vec<(Vec<u32>, Vec<u32>)> = p
        .active
        .minimal_splits(1)
        .into_iter()
        .map(|(a, b)| (a.0, b.0))
        .collect();
    splits.sort();
    assert_eq!(splits, vec![(vec![0], vec![1]), (vec![1], vec![0, 1])]);

    let p = Problem::from_string("A A B\n\nA B").unwrap();
    let mut splits: Vec<(Vec<u32>, Vec<u32>)> = p
        .active
        .minimal_splits(2)
        .into_iter()
        .map(|(a, b)| (a.0, b.0))
        .collect();
    splits.sort();
    assert_eq!(splits, vec![(vec![0], vec![1]), (vec![0, 1], vec![0])]);
}
