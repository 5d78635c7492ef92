use round_eliminator::group::{Group, GroupType};
use round_eliminator::line::Line;
use round_eliminator::part::Part;

fn part(n: u8, g: Vec<u32>) -> Part {
    Part { gtype: GroupType::Many(n), group: Group::from(g) }
}

#[test]
fn existing_choice() {
    let line1 = Line { parts: vec![part(5, vec![0, 1, 2]), part(2, vec![0]), part(2, vec![1])] };
    let line2 = Line { parts: vec![part(5, vec![0, 2]), part(2, vec![0, 1]), part(1, vec![1, 2]), part(1, vec![1, 2])] };
    assert!(line1.pick_existing_choice(&line2) == Some(vec![0, 0, 0, 0, 0, 0, 0, 1, 1]));
    assert!(line2.pick_existing_choice(&line1).is_some());

    let line1 = Line { parts: vec![part(5, vec![0]), part(2, vec![0]), part(2, vec![0])] };
    let line2 = Line { parts: vec![part(5, vec![0]), part(2, vec![0]), part(1, vec![0]), part(1, vec![1])] };
    assert!(line1.pick_existing_choice(&line2).is_none());
    assert!(line2.pick_existing_choice(&line1).is_none());
}

#[test]
fn matches_lists_the_pairs_that_carry_labels() {
    let a = Line { parts: vec![part(2, vec![0, 1]), part(1, vec![2])] };
    let b = Line { parts: vec![part(1, vec![0]), part(1, vec![1]), part(1, vec![2])] };
    let m = a.matches(&b, None::<fn(&Group, &Group) -> bool>).unwrap();
    assert_eq!(m, vec![((0, 0), 1), ((0, 1), 1), ((1, 2), 1)]);
    assert!(b.matches(&a, None::<fn(&Group, &Group) -> bool>).is_none());
    let any = |_: &Group, _: &Group| true;
    assert!(b.includes_with_custom_supersets(&a, Some(any)));
}
