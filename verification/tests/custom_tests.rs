use round_eliminator::constraint::Constraint;
use round_eliminator::group::Group;
use round_eliminator::line::Line;

fn same(a: &Group, b: &Group) -> bool {
    a.0 == b.0
}

fn no_test() -> Option<fn(&Group, &Group) -> bool> {
    None
}

fn line(s: &str, names: &mut Vec<String>) -> Line {
    Line::parse(s, names).unwrap()
}

fn two_lines(a: &str, b: &str, names: &mut Vec<String>) -> Constraint {
    let c = Constraint::parse(a, names).unwrap();
    let degree = c.degree;
    Constraint { lines: vec![line(a, names), line(b, names)], is_maximized: false, degree }
}

#[test]
fn constraint_includes_with_and_without_a_test() {
    let mut names = Vec::new();
    let c = Constraint::parse("AB AB", &mut names).unwrap();
    let n = line("A B", &mut names);
    assert!(c.includes_with_custom_supersets(&n, no_test()));
    assert!(!c.includes_with_custom_supersets(&n, Some(same)));
    let m = line("AB AB", &mut names);
    assert!(c.includes_with_custom_supersets(&m, Some(same)));
}

#[test]
fn includers_are_the_lines_that_include() {
    let mut names = Vec::new();
    let c = two_lines("AB AB", "A A", &mut names);
    let a = line("A A", &mut names);
    let b = line("B B", &mut names);
    assert_eq!(c.includers_with_custom_supersets(&a, no_test()).len(), 2);
    assert_eq!(c.includers_with_custom_supersets(&b, no_test()), vec![c.lines[0].clone()]);
    assert_eq!(c.includers_with_custom_supersets(&a, Some(same)), vec![c.lines[1].clone()]);
}

#[test]
fn adding_a_line_with_a_test() {
    let mut names = Vec::new();
    let mut c = Constraint::parse("A A", &mut names).unwrap();
    let n = line("AB AB", &mut names);
    c.add_line_and_discard_non_maximal_with_custom_supersets(n.clone(), no_test());
    assert_eq!(c.lines, vec![n.clone()]);
    assert!(!c.is_maximized);

    let mut c = Constraint::parse("A A", &mut names).unwrap();
    c.add_line_and_discard_non_maximal_with_custom_supersets(n.clone(), Some(same));
    assert_eq!(c.lines.len(), 2);
    assert_eq!(c.lines[1], n);

    let mut c = Constraint::parse("AB AB", &mut names).unwrap();
    let before = c.lines.clone();
    c.add_line_and_discard_non_maximal_with_custom_supersets(line("A A", &mut names), no_test());
    assert_eq!(c.lines, before);
}

#[test]
fn discarding_with_a_test() {
    let mut names = Vec::new();
    let mut c = two_lines("A A", "AB AB", &mut names);
    c.discard_non_maximal_lines_with_custom_supersets(no_test());
    assert_eq!(c.lines, vec![line("AB AB", &mut names)]);

    let mut c = two_lines("A A", "AB AB", &mut names);
    c.discard_non_maximal_lines_with_custom_supersets(Some(same));
    assert_eq!(c.lines.len(), 2);
}
