use round_eliminator::problem::Problem;
use std::collections::HashMap;

fn relaxed_lines(active: &str) -> Vec<String> {
    let mut problem = Problem::from_string(active).unwrap();
    problem.passive.maximize_with_star_relaxation().unwrap();
    let mapping: HashMap<u32, String> = problem.mapping_label_text.iter().cloned().collect();
    let mut lines: Vec<String> = problem.passive.lines.iter().map(|line| line.to_string(&mapping)).collect();
    lines.sort();
    lines
}

#[test]
fn degree_two_matches_the_counterexample_construction() {
    assert_eq!(relaxed_lines("A B C\n\nA B\nA C\nB B"), vec!["AB BC", "AB^2"]);
}

#[test]
fn star_relaxation_contains_the_radius_one_star_in_degree_three() {
    assert_eq!(relaxed_lines("A A\n\nA A A\nA A B\nA B B"), vec!["AB^3"]);
}

#[test]
fn rejects_variable_degree_constraints() {
    let mut problem = Problem::from_string("A*\n\nA*").unwrap();
    assert!(problem.passive.maximize_with_star_relaxation().is_err());
}

#[test]
fn star_relaxation_marks_the_constraint_maximized() {
    let mut problem = Problem::from_string("A B\n\nA B").unwrap();
    problem.passive.maximize_with_star_relaxation().unwrap();
    assert!(problem.passive.is_maximized);
    assert_eq!(problem.passive.lines.len(), 1);
}
