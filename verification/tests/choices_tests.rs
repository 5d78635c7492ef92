use round_eliminator::group::Group;
use round_eliminator::problem::Problem;
use std::collections::HashSet;

#[test]
fn sets_of_all_choices() {
    let p = Problem::from_string("A B^2 C*\nD E E*\n\nA BCDE").unwrap();
    let got: HashSet<Group> = p.active.sets_of_all_choices().into_iter().collect();
    assert_eq!(got, HashSet::from([Group(vec![0, 1, 2]), Group(vec![3, 4])]));

    let p = Problem::from_string("A AB AB\nCD EF EF\n\nA BCDEF").unwrap();
    let got: HashSet<Group> = p.active.sets_of_all_choices().into_iter().collect();
    assert_eq!(
        got,
        HashSet::from([
            Group(vec![0]),
            Group(vec![0, 1]),
            Group(vec![2, 4]),
            Group(vec![2, 5]),
            Group(vec![3, 4]),
            Group(vec![3, 5])
        ])
    );

    let p = Problem::from_string("A AB AB\nCD CEF CEF\n\nA BCDEF").unwrap();
    let got: Vec<HashSet<u32>> = p
        .active
        .minimal_sets_of_all_choices()
        .into_iter()
        .map(|v| v.into_iter().collect())
        .collect();
    assert_eq!(
        got,
        vec!(HashSet::from([0]), HashSet::from([2]), HashSet::from([3, 4]), HashSet::from([3, 5]))
    );
}

#[test]
fn sets_of_all_choices_have_no_repetitions() {
    let p = Problem::from_string("A BC\nAB C\n\nABC ABC").unwrap();
    let got = p.active.sets_of_all_choices();
    let as_set: HashSet<Group> = got.iter().cloned().collect();
    assert_eq!(got.len(), as_set.len());
    assert_eq!(as_set, HashSet::from([Group(vec![0, 1]), Group(vec![0, 2]), Group(vec![1, 2])]));
}

#[test]
fn minimal_sets_of_a_line_are_sorted() {
    let p = Problem::from_string("C AB\n\nABC ABC").unwrap();
    let line = &p.active.lines[0];
    assert_eq!(line.minimal_sets_of_all_choices(), vec![vec![0, 1], vec![0, 2]]);
}
