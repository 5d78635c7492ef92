use round_eliminator::problem::Problem;

#[test]
fn triviality() {
    let mut p = Problem::from_string("M U U\nP P P\n\nM UP\nU U").unwrap();
    p.compute_triviality();
    assert!(p.trivial_sets.unwrap().is_empty());

    let mut p = Problem::from_string("A AB AB\n\nA A\nB B").unwrap();
    p.compute_triviality();
    assert!(!p.trivial_sets.unwrap().is_empty());

    let mut p = Problem::from_string("A B AB\n\nA A\nB B\nA B\nAB AB").unwrap();
    p.compute_triviality();
    assert!(!p.trivial_sets.unwrap().is_empty());

    let mut p = Problem::from_string("A B AB\n\nA A\nB B\nA B").unwrap();
    p.compute_triviality();
    assert!(!p.trivial_sets.unwrap().is_empty());
}

#[test]
fn matching() {
    let p0 = Problem::from_string("M U U U\nP P P P\n\nM UP UP UP\nU U U U").unwrap();
    let mut v = vec![p0];
    for i in 0..7 {
        let next = v[i].speedup();
        v.push(next);
    }
    v[6].compute_triviality();
    v[7].compute_triviality();
    assert!(v[6].trivial_sets.as_ref().unwrap().is_empty() && !v[7].trivial_sets.as_ref().unwrap().is_empty());
}

#[test]
fn dont_discard_emptysets_with_exponent_zero() {
    let p = Problem::from_string("1 2\n\n12 1 1\n12 2 2").unwrap();
    let p = p.speedup();
    assert_eq!(p.to_string(), "A^3\n\nA^2\n");
}

#[test]
fn triviality_lists_the_trivial_sets() {
    let mut p = Problem::from_string("A AB AB\n\nA A\nB B").unwrap();
    p.compute_triviality();
    assert_eq!(p.trivial_sets.unwrap(), vec![vec![0]]);
}

#[test]
fn speedup_of_sinkless_orientation_names_the_new_labels() {
    let p = Problem::from_string("O I I\n\nO I").unwrap();
    let q = p.speedup();
    assert_eq!(q.mapping_label_oldlabels.as_ref().unwrap().len(), q.mapping_label_text.len());
    assert_eq!(q.mapping_oldlabel_text.as_ref().unwrap(), &p.mapping_label_text);
}

#[test]
fn maximize_of_a_maximized_constraint_changes_nothing() {
    let mut p = Problem::from_string("A B\n\nA B").unwrap();
    p.passive.maximize();
    let lines = p.passive.lines.clone();
    p.passive.maximize();
    assert_eq!(p.passive.lines, lines);
    assert!(p.passive.is_maximized);
}
