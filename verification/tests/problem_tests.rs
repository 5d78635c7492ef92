use round_eliminator::problem::Problem;

#[test]
fn parsing() {
    let p = Problem::from_string("AB^5 BC^100 CD^3\nABCD^108\n\nAB CD").unwrap();
    assert_eq!(p.to_string(), "ABCD^108\n\nAB CD\n");

    let p = Problem::from_string("A AB*\nC CD*\n\nAB CD").unwrap();
    assert_eq!(p.to_string(), "A AB*\nC CD*\n\nAB CD\n");
}

#[test]
fn parsing_errors() {
    assert_eq!(Problem::from_string("AB^5 BC^100 CD^3\nABCD^108\n\nAB CD**").err(), Some("Something after the star"));
    assert_eq!(Problem::from_string("\n\nA A").err(), Some("Empty constraint"));
    assert_eq!(Problem::from_string("A A\nB\n\nA B").err(), Some("Lines have different degrees"));
}

#[test]
fn problem_labels_and_missing_labels() {
    let p = Problem::from_string("A B C\n\nB A").unwrap();
    assert_eq!(p.labels(), vec![0, 1, 2]);
    let (_, missing) = Problem::from_string_active_passive("A B C", "B A").unwrap();
    assert!(missing);
    let (_, missing) = Problem::from_string_active_passive("A B", "B A").unwrap();
    assert!(!missing);
}
