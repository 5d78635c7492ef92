use round_eliminator::group::{Group, GroupType};
use round_eliminator::line::Line;
use round_eliminator::part::Part;
use round_eliminator::problem::Problem;

fn single_labels(parts: &[(u8, u32)]) -> Line {
    Line {
        parts: parts
            .iter()
            .map(|&(n, l)| Part { gtype: GroupType::Many(n), group: Group(vec![l]) })
            .collect(),
    }
}

fn sorted_groups(line: &Line) -> Vec<Vec<u32>> {
    let mut v: Vec<Vec<u32>> = line.parts.iter().map(|p| p.group.0.clone()).collect();
    v.sort();
    v.dedup();
    v
}

#[test]
fn line_whose_labels_may_meet_on_an_edge_is_trivial() {
    let p = Problem::from_string("A A B\n\nAB AB").unwrap();
    assert!(p.is_line_trivial(&single_labels(&[(2, 0), (1, 1)])));

    let p = Problem::from_string("A A B\n\nA A\nB B").unwrap();
    assert!(!p.is_line_trivial(&single_labels(&[(2, 0), (1, 1)])));
    assert!(p.is_line_trivial(&single_labels(&[(3, 0)])));
}

#[test]
fn line_trivial_with_an_orientation() {
    let p = Problem::from_string("A A B B B\n\nA B").unwrap();
    assert!(p.is_line_trivial_with_given_orientation(&single_labels(&[(2, 0), (3, 1)]), 2));

    let p = Problem::from_string("A A B B\n\nA B").unwrap();
    assert!(!p.is_line_trivial_with_given_orientation(&single_labels(&[(2, 0), (2, 1)]), 3));
}

#[test]
fn assumed_orientation_makes_more_lines_trivial() {
    let mut p = Problem::from_string("A A B B B\n\nA B").unwrap();
    let line = single_labels(&[(2, 0), (3, 1)]);
    assert!(!p.is_line_trivial(&line));
    assert!(!p.is_line_trivial_with_assumed_input(&line));
    p.orientation_given = Some(2);
    assert!(p.is_line_trivial_with_assumed_input(&line));
}

#[test]
fn diagram_predecessor_in_a_constraint() {
    let p = Problem::from_string("A A\n\nAB B").unwrap();
    assert!(p.passive.is_diagram_predecessor(0, 1));
    assert!(!p.passive.is_diagram_predecessor(1, 0));
    assert!(p.passive.is_diagram_predecessor(0, 0));
}

#[test]
fn active_groups_take_the_labels_that_reach_them() {
    let mut p = Problem::from_string("A A B\n\nAB B").unwrap();
    p.diagram_indirect = Some(vec![(0, 0), (1, 1), (0, 1)]);
    p.add_active_predecessors();
    assert_eq!(p.active.lines.len(), 1);
    assert_eq!(sorted_groups(&p.active.lines[0]), vec![vec![0], vec![0, 1]]);
}

#[test]
fn passive_generators_keep_the_labels_that_nothing_else_reaches() {
    let mut p = Problem::from_string("A A B\n\nAB B").unwrap();
    p.diagram_indirect = Some(vec![(0, 0), (1, 1), (0, 1)]);
    p.compute_passive_gen();
    let pg = p.passive_gen.clone().unwrap();
    assert_eq!(pg.lines.len(), 1);
    assert_eq!(sorted_groups(&pg.lines[0]), vec![vec![0], vec![1]]);

    p.diagram_direct = Some((vec![(0, vec![0, 1])], vec![]));
    p.compute_passive_gen();
    assert!(p.passive_gen.is_none());
}

#[test]
fn minimal_splits_of_one_line() {
    let line = Line::parse("A A B", &mut Vec::new()).unwrap();
    let mut splits: Vec<(Vec<u32>, Vec<u32>)> =
        line.minimal_splits(1).into_iter().map(|(a, b)| (a.0, b.0)).collect();
    splits.sort();
    assert_eq!(splits, vec![(vec![0], vec![0, 1]), (vec![1], vec![0])]);
}
