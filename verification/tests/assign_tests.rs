use round_eliminator::problem::Problem;

#[test]
fn labels_with_known_sets_get_one_character() {
    let mut p = Problem::from_string("A A\n\nA A").unwrap();
    p.mapping_label_oldlabels = Some(vec![(0, vec![0]), (1, vec![0, 1]), (27, vec![1])]);
    p.assign_chars();
    assert_eq!(
        p.mapping_label_text,
        vec![(0, "A".to_string()), (1, "B".to_string()), (27, "b".to_string())]
    );
}

#[test]
fn many_labels_get_numbers() {
    let mut p = Problem::from_string("A A\n\nA A").unwrap();
    p.mapping_label_oldlabels = Some((0..70).map(|i| (i, vec![i])).collect());
    p.assign_chars();
    assert_eq!(p.mapping_label_text.len(), 70);
    assert_eq!(p.mapping_label_text[0], (0, "(0)".to_string()));
    assert_eq!(p.mapping_label_text[69], (69, "(69)".to_string()));
}

#[test]
fn labels_take_the_names_of_old_labels() {
    let mut p = Problem::from_string("A A\n\nA A").unwrap();
    p.mapping_label_oldlabels = None;
    p.mapping_oldlabel_labels = Some(vec![(1, vec![2, 1]), (0, vec![0])]);
    p.mapping_oldlabel_text = Some(vec![(0, "A".to_string()), (1, "(xy)".to_string())]);
    p.assign_chars();
    assert_eq!(
        p.mapping_label_text,
        vec![(0, "A".to_string()), (1, "([xy]_2)".to_string()), (2, "([xy]_1)".to_string())]
    );
}
