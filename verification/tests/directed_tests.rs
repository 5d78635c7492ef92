use std::collections::HashMap;

use itertools::Itertools;
use round_eliminator::directed::DirectedProblem;

#[test]
fn directed_rounds_of_speedup() {
    let mut p = DirectedProblem::from_string(
        "A : BC(BC)^2
B : AC(AC)^2
C : AB(AB)^2
(AB) : AC(AC)^2
(AB) : BC(BC)^2
(AC) : AB(AB)^2
(AC) : BC(BC)^2
(BC) : AB(AB)^2
(BC) : AC(AC)^2",
    )
    .unwrap();

    p.maximize();
    assert_eq!(p.labels().len(), 6);
    let mut counts = vec![];
    for _ in 0..3 {
        p = p.speedup();
        let mapping: HashMap<_, _> = p.mapping_label_text.iter().cloned().collect();
        let oldmapping: HashMap<_, _> = p.mapping_oldlabel_text.as_ref().unwrap().iter().cloned().collect();
        for (label, oldlabels) in p.mapping_label_oldlabels.as_ref().unwrap().iter() {
            assert!(!oldlabels.is_empty());
            let _ = format!("{} <- {}", mapping[label], oldlabels.iter().map(|l| &oldmapping[l]).join(""));
        }
        p.maximize();
        let _ = p.is_trivial();
        counts.push(p.labels().len());
    }
    assert!(counts[0] > 6 && counts[1] > counts[0] && counts[2] > counts[1]);
}

#[test]
fn directed_problem_is_read_by_predecessor() {
    let p = DirectedProblem::from_string("B : A A\nA : B B\nA : A B").unwrap();
    assert_eq!(p.constraints.len(), 2);
    assert_eq!(p.constraints[0].0 .0, vec![0]);
    assert_eq!(p.constraints[1].0 .0, vec![1]);
    assert_eq!(p.constraints[0].1.lines.len(), 2);
    assert_eq!(p.mapping_label_text, vec![(0, "A".to_string()), (1, "B".to_string())]);
    assert_eq!(p.to_string(), "A : B^2\nA : A B\nB : A^2\n");
    assert_eq!(p.labels(), vec![0, 1]);
}

#[test]
fn directed_problem_errors() {
    assert_eq!(
        DirectedProblem::from_string("A^2 : B B").unwrap_err(),
        "Only one-element groups are supported as predecessors"
    );
    assert!(DirectedProblem::from_string("A : B B\nB : A A A").is_ok());
    assert_eq!(DirectedProblem::from_string("A : B)").unwrap_err(), "')' not allowed in a label");
}

#[test]
fn directed_triviality() {
    let p = DirectedProblem::from_string("A : A A\nB : A B").unwrap();
    assert!(p.is_trivial());
    let p = DirectedProblem::from_string("A : B B\nB : A A").unwrap();
    assert!(!p.is_trivial());
}

#[test]
fn directed_speedup_of_alternation_keeps_its_shape() {
    let mut p = DirectedProblem::from_string("A : B B\nB : A A").unwrap();
    p.maximize();
    let q = p.speedup();
    assert_eq!(q.mapping_label_oldlabels, Some(vec![(0, vec![0]), (1, vec![1])]));
    assert_eq!(q.to_string(), "A : B^2\nB : A^2\n");
    assert_eq!(q.mapping_oldlabel_text, Some(p.mapping_label_text.clone()));
}

#[test]
fn directed_speedup_takes_intersections() {
    let mut p = DirectedProblem::from_string("A : AB C\nB : BC C\nC : A B").unwrap();
    p.maximize();
    let q = p.speedup();
    let sets: Vec<Vec<u32>> = q.mapping_label_oldlabels.unwrap().into_iter().map(|(_, s)| s).collect();
    assert!(sets.contains(&vec![1]));
    assert!(sets.contains(&vec![0, 1]));
    assert!(sets.contains(&vec![1, 2]));
}
