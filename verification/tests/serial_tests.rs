use round_eliminator::problem::Problem;
use round_eliminator::serial::{respond, Request, Response};

#[test]
fn ping_is_answered_by_pong_only() {
    let r = respond(Request::Ping).unwrap();
    assert_eq!(r.len(), 1);
    assert!(matches!(r[0], Response::Pong));
}

#[test]
fn rename_requests() {
    let p = Problem::from_string("A AB AB\n\nB AB").unwrap();
    let r = respond(Request::Rename(p, vec![(0, "X".to_string()), (1, "YZ".to_string())])).unwrap();
    match &r[0] {
        Response::P(q) => assert_eq!(q.to_string(), "X X(YZ)^2\n\nX(YZ) (YZ)\n"),
        _ => panic!("expected a problem"),
    }
    let p = Problem::from_string("A AB AB\n\nB AB").unwrap();
    let r = respond(Request::Rename(p, vec![(0, "X".to_string()), (1, "X".to_string())])).unwrap();
    match &r[0] {
        Response::E(s) => assert_eq!(s, "Labels are not unique"),
        _ => panic!("expected an error"),
    }
}

#[test]
fn orientation_request() {
    let p = Problem::from_string("A A B B B\n\nA B").unwrap();
    let r = respond(Request::Orientation(p, 2)).unwrap();
    match &r[0] {
        Response::P(q) => {
            assert_eq!(q.orientation_given, Some(2));
            assert!(q.orientation_trivial_sets.as_ref().unwrap().len() > 0);
        }
        _ => panic!("expected a problem"),
    }
}

#[test]
fn requests_needing_other_operations_are_not_answered() {
    let p = Problem::from_string("A AB AB\n\nB AB").unwrap();
    assert!(respond(Request::Speedup(p)).is_none());
}

#[test]
fn coloring_request() {
    let mut p = Problem::from_string("A A A\nB B B\nC C C\n\nA BC\nB C").unwrap();
    p.diagram_indirect = Some(vec![]);
    let r = respond(Request::ColoringSolvability(p)).unwrap();
    assert_eq!(r.len(), 1);
    match &r[0] {
        Response::P(q) => assert_eq!(q.coloring_sets, Some(vec![vec![0], vec![1], vec![2]])),
        _ => panic!("expected a problem"),
    }
}

#[test]
fn star_active_side_requests_are_refused() {
    let p = Problem::from_string("A B*\n\nA B").unwrap();
    match &respond(Request::InverseSpeedup(p.clone())).unwrap()[0] {
        Response::E(s) => assert_eq!(s, "Cannot perform inverse speedup if the active side contains a star."),
        _ => panic!("expected an error"),
    }
    match &respond(Request::AllDifferentLabels(p.clone())).unwrap()[0] {
        Response::E(s) => assert_eq!(s, "Cannot perform this operation if the active side contains a star."),
        _ => panic!("expected an error"),
    }
    match &respond(Request::DeltaEdgeColoring(p)).unwrap()[0] {
        Response::E(s) => assert_eq!(s, "Cannot perform this operation if the active side contains a star."),
        _ => panic!("expected an error"),
    }
    let q = Problem::from_string("A B B\n\nA B").unwrap();
    assert!(respond(Request::InverseSpeedup(q)).is_none());
}

#[test]
fn active_predecessors_request() {
    // A = 0, B = 1; A reaches B in the diagram, so B's predecessors are A and B.
    let mut p = Problem::from_string("A B B\n\nA B").unwrap();
    p.diagram_indirect = Some(vec![(0, 0), (0, 1), (1, 1)]);
    let r = respond(Request::AddActivePredecessors(p.clone(), false)).unwrap();
    match &r[0] {
        Response::P(q) => {
            assert_eq!(q.to_string(), "A AB^2\n\nA B\n");
            assert_eq!(q.passive, p.passive);
        }
        _ => panic!("expected a problem"),
    }
    assert!(respond(Request::AddActivePredecessors(p, true)).is_none());
}
