use round_eliminator::problem::Problem;

#[test]
fn renaming() {
    let mut p = Problem::from_string("A AB AB\n\nB AB").unwrap();
    p.rename(&vec![(0, "B".into()), (1, "A".into())]).unwrap();
    assert_eq!(p.to_string(), "B BA^2\n\nBA A\n");

    let mut p = Problem::from_string("A AB AB\n\nB AB").unwrap();
    p.rename(&vec![(1, "ABC".into()), (0, "TEST".into())]).unwrap();
    assert_eq!(p.to_string(), "(TEST) (TEST)(ABC)^2\n\n(TEST)(ABC) (ABC)\n");

    let mut p = Problem::from_string("A AB AB\n\nB AB").unwrap();
    assert!(p.rename(&vec![(0, "TEST".into()), (0, "ABC".into())]).is_err());

    let mut p = Problem::from_string("A AB AB\n\nB AB").unwrap();
    assert!(p.rename(&vec![(0, "TEST".into())]).is_err());

    let mut p = Problem::from_string("A AB AB\n\nB AB").unwrap();
    assert!(p.rename(&vec![(0, "TEST".into()), (1, "TEST".into())]).is_err());

    let mut p = Problem::from_string("A AB AB\n\nB AB").unwrap();
    assert!(p.rename(&vec![(0, "A".into()), (1, "B*".into())]).is_err());

    let mut p = Problem::from_string("A AB AB\n\nB AB").unwrap();
    assert!(p.rename(&vec![(0, "A".into()), (1, "(B)".into())]).is_err());

    let mut p = Problem::from_string("A AB AB\n\nB AB").unwrap();
    assert!(p.rename(&vec![(0, "A".into()), (1, "B ".into())]).is_err());
}

fn generators_problem() -> Problem {
    let mut p = Problem::from_string("A D D D\nB B B C\n\nAC\tBCD\tBCD\tBCD\nD\tD\tD\tD").unwrap();
    p.mapping_label_oldlabels = Some(vec![(0, vec![0]), (2, vec![1]), (3, vec![0, 1]), (1, vec![1, 2])]);
    p.mapping_oldlabel_text = Some(vec![(0, "M".into()), (1, "U".into()), (2, "P".into())]);
    p
}

#[test]
fn renaming_by_generators() {
    let mut p = generators_problem();
    p.diagram_indirect_old = Some(vec![(0, 0), (1, 1), (2, 2), (2, 1)]);
    p.rename_by_generators().unwrap();
    assert_eq!(
        p.to_string(),
        "(<M>) (<P>)^3\n(<M,U>) (<U>)^3\n\n(<M>)(<M,U>) (<P>)(<U>)(<M,U>)^3\n(<P>)^4\n"
    );

    let mut p = generators_problem();
    p.rename_by_generators().unwrap();
    assert_eq!(
        p.to_string(),
        "(<M>) (<P>)^3\n(<M,U>) (<U>)^3\n\n(<M>)(<M,U>) (<P>)(<U>)(<M,U>)^3\n(<P>)^4\n"
    );
}

#[test]
fn renaming_by_generators_when_equal_labels() {
    let mut p = Problem::from_string("A B\n\nAB AB").unwrap();
    p.mapping_label_oldlabels = Some(vec![(0, vec![0]), (1, vec![0])]);
    p.mapping_oldlabel_text = Some(vec![(0, "M".into())]);
    assert!(p.rename_by_generators().is_err());
}

#[test]
fn renaming_keeps_the_names_when_refused() {
    let mut p = Problem::from_string("A B\n\nAB AB").unwrap();
    assert!(p.rename(&vec![(0, "X".into())]).is_err());
    assert_eq!(p.to_string(), "A B\n\nAB^2\n");
}
