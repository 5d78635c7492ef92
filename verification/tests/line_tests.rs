use std::collections::HashMap;

use round_eliminator::line::{Degree, Line};

fn names(h: Vec<String>) -> HashMap<u32, String> {
    h.into_iter().enumerate().map(|(i, s)| (i as u32, s)).collect()
}

fn parse(s: &str) -> Line {
    Line::parse(s, &mut Vec::new()).unwrap()
}

#[test]
fn line_valid_conversions() {
    let mut h = Vec::new();
    let p = Line::parse("ABC", &mut h).unwrap();
    assert_eq!(p.to_string(&names(h)), "ABC");

    let mut h = Vec::new();
    let p = Line::parse("ABC^0", &mut h).unwrap();
    assert_eq!(p.to_string(&names(h)), "");

    let mut h = Vec::new();
    let p = Line::parse("AB ABC^1 AB ABC^0 ABC^5", &mut h).unwrap();
    assert_eq!(p.to_string(&names(h)), "AB^2 ABC^6");

    let mut h = Vec::new();
    let p = Line::parse("AB AB* AB^3 AB", &mut h).unwrap();
    assert_eq!(p.to_string(&names(h)), "AB*");

    let mut h = Vec::new();
    let p = Line::parse("AB ABC^1 BA BCA^0 BAC^5", &mut h).unwrap();
    assert_eq!(p.to_string(&names(h)), "AB^2 ABC^6");
}

#[test]
fn star() {
    let p = parse("AB AB* AB^3 AB");
    assert_eq!(p.has_star(), true);

    let p = parse("AB AB AB^3 AB");
    assert_eq!(p.has_star(), false);
}

#[test]
fn degree() {
    let p = parse("AB AB* AB^3 ABC");
    assert_eq!(p.degree_without_star(), 1);

    let p = parse("AB AB^2 AB^3 ABC");
    assert_eq!(p.degree_without_star(), 7);
}

#[test]
fn line_degree_and_star_part() {
    assert_eq!(parse("AB AB^2 C").degree(), Degree::Finite(4));
    assert_eq!(parse("AB C*").degree(), Degree::Star);
    assert!(parse("AB C").get_star().is_none());
    assert!(parse("AB C*").get_star().is_some());
}

#[test]
fn line_too_large_is_refused() {
    assert_eq!(Line::parse("A^200 B^100", &mut Vec::new()), Err("Line too large"));
    assert!(Line::parse("A^200 B^55", &mut Vec::new()).is_ok());
}

#[test]
fn line_inclusion() {
    let l1 = parse("AB^3 AB^2 ABC");
    let l2 = parse("AB^2 AB^3 ABC");
    assert_eq!(l1.includes(&l2), true);
    assert_eq!(l2.includes(&l1), true);

    let l1 = parse("ABC^10 AB^5");
    let l2 = parse("AB^8 ABC^7");
    assert_eq!(l1.includes(&l2), true);
    assert_eq!(l2.includes(&l1), false);

    let l1 = parse("AB^5 ABC*");
    let l2 = parse("AB^8 ABC*");
    assert_eq!(l1.includes(&l2), true);
    assert_eq!(l2.includes(&l1), false);

    let l1 = parse("AB^5 CD^3 ABC*");
    let l2 = parse("AB^8 ABCD*");
    assert_eq!(l1.includes(&l2), false);
    assert_eq!(l2.includes(&l1), false);

    let l1 = parse("ABCDE CDE^3 AB^5 ABC*");
    let l2 = parse("ABCDE ABCD* CDE^4");
    assert_eq!(l1.includes(&l2), false);
    assert_eq!(l2.includes(&l1), false);

    let l1 = parse("ABCDE CDE^3 AB^5 ABC*");
    let l2 = parse("ABCDE ABCD* CDE^3");
    assert_eq!(l1.includes(&l2), false);
    assert_eq!(l2.includes(&l1), true);

    let l1 = parse("AB*");
    let l2 = parse("ABC*");
    assert_eq!(l1.includes(&l2), false);
    assert_eq!(l2.includes(&l1), true);

    let l1 = parse("ABC AB*");
    let l2 = parse("ABC BC*");
    assert_eq!(l1.includes(&l2), false);
    assert_eq!(l2.includes(&l1), false);

    let l1 = parse("AB*");
    let l2 = parse("AB*");
    assert_eq!(l1.includes(&l2), true);
}

#[test]
fn line_includes_itself() {
    for s in ["A B C", "AB^3 C*", "A^2 BC^3", "ABC*"] {
        let l = parse(s);
        assert!(l.includes(&l));
    }
}

#[test]
fn many_starred_parts_are_read() {
    let text = vec!["A*"; 1025].join(" ");
    let mut h = Vec::new();
    let l = Line::parse(&text, &mut h).unwrap();
    assert_eq!(l.degree(), Degree::Star);
    assert_eq!(l.to_string(&names(h)), "A*");
}
