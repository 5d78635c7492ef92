use round_eliminator::constraint::Constraint;
use round_eliminator::group::{Group, GroupType};
use round_eliminator::line::Line;
use round_eliminator::part::Part;
use round_eliminator::problem::Problem;

fn part(n: u8, labels: Vec<u32>) -> Part {
    Part { gtype: GroupType::Many(n), group: Group(labels) }
}

fn line(s: &str, names: &mut Vec<String>) -> Line {
    Line::parse(s, names).unwrap()
}

#[test]
fn normalizing_twice_is_normalizing_once() {
    let mut l = Line { parts: vec![part(1, vec![0]), part(2, vec![1]), part(1, vec![0]), part(1, vec![0, 1])] };
    l.normalize();
    let once = l.clone();
    l.normalize();
    assert_eq!(l, once);
    assert_eq!(once.parts.len(), 3);
}

#[test]
fn added_line_is_kept_or_covered() {
    let mut names = Vec::new();
    let mut c = Constraint::parse("AB B", &mut names).unwrap();
    let covered = line("A B", &mut names);
    c.add_line_and_discard_non_maximal(covered.clone());
    assert!(!c.lines.contains(&covered));
    assert!(c.includes(&covered));

    let larger = line("AB AB", &mut names);
    c.add_line_and_discard_non_maximal(larger.clone());
    assert_eq!(c.lines, vec![larger]);
}

#[test]
fn discarding_keeps_only_input_lines() {
    let mut names = Vec::new();
    let a = line("A A", &mut names);
    let ab = line("AB B", &mut names);
    let b = line("B B", &mut names);
    let input = vec![a, ab.clone(), b];
    let mut c = Constraint { lines: input.clone(), is_maximized: false, degree: ab.degree() };
    c.discard_non_maximal_lines();
    assert_eq!(c.lines.len(), 2);
    for l in &c.lines {
        assert!(input.contains(l));
    }
}

#[test]
fn minimal_choice_sets_are_choice_sets() {
    let mut names = Vec::new();
    let c = Constraint::parse("A AB", &mut names).unwrap();
    let all: Vec<Vec<u32>> = c.sets_of_all_choices().into_iter().map(|g| g.0).collect();
    let minimal = c.minimal_sets_of_all_choices();
    assert_eq!(minimal, vec![vec![0]]);
    for s in &minimal {
        assert!(all.contains(s));
    }
    assert_eq!(all.len(), 2);
}

#[test]
fn trivial_sets_are_minimal_choice_sets() {
    let mut p = Problem::from_string("A AB AB\n\nA A\nB B").unwrap();
    p.compute_triviality();
    let minimal = p.active.minimal_sets_of_all_choices();
    let trivial = p.trivial_sets.unwrap();
    assert!(!trivial.is_empty());
    for s in &trivial {
        assert!(minimal.contains(s));
    }
}

#[test]
fn discarding_covers_every_input_line() {
    let mut names = Vec::new();
    let a = line("A A", &mut names);
    let ab = line("AB B", &mut names);
    let b = line("B B", &mut names);
    let input = vec![a, ab.clone(), b];
    let mut c = Constraint { lines: input.clone(), is_maximized: false, degree: ab.degree() };
    c.discard_non_maximal_lines();
    for l in &input {
        assert!(c.lines.iter().any(|m| m.includes(l)));
    }
}

#[test]
fn maximizing_covers_every_input_line() {
    let mut names = Vec::new();
    let input = vec![line("A B", &mut names), line("B C", &mut names), line("A A", &mut names)];
    let mut c = Constraint { lines: input.clone(), is_maximized: false, degree: input[0].degree() };
    c.maximize();
    assert!(c.is_maximized);
    assert!(!c.lines.is_empty());
    for l in &input {
        assert!(c.lines.iter().any(|m| m.includes(l)));
    }
}
