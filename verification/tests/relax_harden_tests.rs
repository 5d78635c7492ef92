use std::collections::HashSet;

use round_eliminator::inclusion::read_matching;
use round_eliminator::problem::Problem;

#[test]
fn addarrow_adds_every_reachable_label() {
    // A = 0, B = 1; A reaches A and B in the diagram.
    let mut p = Problem::from_string("A AB AB\n\nB AB").unwrap();
    p.diagram_indirect = Some(vec![(0, 0), (0, 1), (1, 1)]);
    let r = p.relax_addarrow(1, 0);
    assert_eq!(r.to_string(), "A AB^2\n\nAB^2\n");
    assert!(r.diagram_indirect.is_none());
}

#[test]
fn addarrow_with_one_successor() {
    let mut p = Problem::from_string("A B\n\nA B").unwrap();
    p.diagram_indirect = Some(vec![(0, 0), (1, 1)]);
    let r = p.relax_addarrow(1, 0);
    assert_eq!(r.to_string(), "A B\n\nA AB\n");
}

#[test]
fn harden_keep_restricts_both_sides() {
    let p = Problem::from_string("A B B\nC C C\n\nA B\nB C\nC C").unwrap();
    let keep: HashSet<u32> = [0, 1].into_iter().collect();
    let r = p.harden_keep(&keep, false);
    assert_eq!(r.to_string(), "A B^2\n\nA B\n");
    assert!(r.trivial_sets.is_none());
    assert!(r.diagram_indirect.is_none());
}

#[test]
fn harden_drops_labels_missing_on_one_side() {
    // Keeping A and C: C is on both sides, A only on the active side once B goes.
    let p = Problem::from_string("A B B\nC C C\n\nA B\nB C\nC C").unwrap();
    let keep: HashSet<u32> = [0, 2].into_iter().collect();
    let r = p.harden_keep(&keep, false);
    assert_eq!(r.to_string(), "C^3\n\nC^2\n");
    let s = p.harden_remove(1, false);
    assert_eq!(s.to_string(), "C^3\n\nC^2\n");
}

#[test]
fn reading_a_matching_from_a_flow() {
    let pairs = vec![(0usize, 0usize), (0, 1)];
    let flow = vec![0i64, 0, 2, -2, 0, 0];
    assert_eq!(read_matching(&pairs, 2, &flow, 2, 1), Some(vec![((0, 0), 2)]));
    assert_eq!(read_matching(&pairs, 1, &flow, 2, 1), None);
}

#[test]
fn harden_remove_matches_keeping_the_other_labels() {
    let p = Problem::from_string("A B B\nC C C\n\nA B\nB C\nC C").unwrap();
    let removed = p.harden_remove(2, false);
    let keep: HashSet<u32> = [0, 1].into_iter().collect();
    let kept = p.harden_keep(&keep, false);
    assert_eq!(removed.to_string(), kept.to_string());
    assert_eq!(removed.to_string(), "A B^2\n\nA B\n");
}
