use std::collections::HashMap;

use round_eliminator::group::{Group, GroupType};
use round_eliminator::part::Part;

fn names(h: Vec<String>) -> HashMap<u32, String> {
    h.into_iter().enumerate().map(|(i, s)| (i as u32, s)).collect()
}

#[test]
fn part_valid_conversions() {
    let mut h = Vec::new();
    let p = Part::parse("ABC", &mut h).unwrap();
    assert_eq!(Part { gtype: GroupType::one(), group: Group::from(vec![0, 1, 2]) }, p);
    assert_eq!(p.to_string(&names(h)), "ABC");

    let mut h = Vec::new();
    let p = Part::parse("ABC^2", &mut h).unwrap();
    assert_eq!(Part { gtype: GroupType::Many(2), group: Group::from(vec![0, 1, 2]) }, p);
    assert_eq!(p.to_string(&names(h)), "ABC^2");

    let mut h = Vec::new();
    let p = Part::parse("ABC*", &mut h).unwrap();
    assert_eq!(Part { gtype: GroupType::Star, group: Group::from(vec![0, 1, 2]) }, p);
    assert_eq!(p.to_string(&names(h)), "ABC*");
}

#[test]
fn part_errors_are_reported() {
    assert_eq!(Part::parse("(ABC", &mut Vec::new()), Err("Missing ')'"));
    assert_eq!(Part::parse("(ABC)*.", &mut Vec::new()), Err("Something after the star"));
    assert_eq!(Part::parse("(ABC)^123.", &mut Vec::new()), Err("Invalid number"));
    assert_eq!(Part::parse("AB(AB(C)^123", &mut Vec::new()), Err("'(' not allowed in a label"));
    assert_eq!(Part::parse("AB)ABC^123", &mut Vec::new()), Err("')' not allowed in a label"));
    assert_eq!(Part::parse("AB(A*B)C^123", &mut Vec::new()), Err("'*' not allowed in a label"));
    assert_eq!(Part::parse("AB(A^B)C^123", &mut Vec::new()), Err("'^' not allowed in a label"));
    assert_eq!(Part::parse("AB()C^123", &mut Vec::new()), Err("Empty label not allowed"));
}

#[test]
fn part_long_labels_and_empty_group() {
    let mut h = Vec::new();
    let p = Part::parse("(xy)B(xy)^0", &mut h).unwrap();
    assert_eq!(p.gtype, GroupType::Many(0));
    assert_eq!(p.group, Group(vec![0, 1]));
    assert_eq!(h, vec!["(xy)".to_string(), "B".to_string()]);
    let e = Part { gtype: GroupType::one(), group: Group(vec![]) };
    assert_eq!(e.to_string(&HashMap::new()), "∅");
}

#[test]
fn part_repeated_names() {
    let mut h = Vec::new();
    let p = Part::parse("AB^3", &mut h).unwrap();
    assert_eq!(p._to_string(&names(h)), "AB AB AB ");

    let q = Part { gtype: GroupType::Many(0), group: Group::from(vec![0]) };
    assert_eq!(q._to_string(&names(vec!["A".to_string()])), "");
}
