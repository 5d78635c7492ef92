use round_eliminator::pairing::{Comb, Pairings};

fn all_matrices(v1: Vec<usize>, v2: Vec<usize>) -> Vec<Vec<Vec<usize>>> {
    let mut p = Pairings::new(v1, v2);
    let mut all = vec![];
    p.advance();
    while !p.is_done() {
        all.push(p.matrix());
        p.advance();
    }
    all.sort();
    all
}

#[test]
fn all_pairings() {
    let v1 = vec![1, 2];
    let v2 = vec![2, 1];
    let all = all_matrices(v1, v2);
    assert_eq!(all, [[[0, 1], [2, 0]], [[1, 0], [1, 1]]]);
}

#[test]
fn pairings_of_a_single_row_take_everything_at_once() {
    let all = all_matrices(vec![3], vec![1, 2]);
    assert_eq!(all, vec![vec![vec![1, 2]]]);
}

#[test]
fn pairings_count_the_ways_to_split_two_units() {
    let all = all_matrices(vec![1, 1], vec![1, 1]);
    assert_eq!(all, vec![vec![vec![0, 1], vec![1, 0]], vec![vec![1, 0], vec![0, 1]]]);
}

#[test]
fn comb_lists_the_distributions_within_the_maxima() {
    let mut c = Comb::new(2, vec![1, 1, 1]);
    let mut all = vec![];
    while let Some(v) = c.next() {
        all.push(v.clone());
    }
    assert_eq!(all, vec![vec![1, 1, 0], vec![1, 0, 1], vec![0, 1, 1]]);
}

fn colex_before(v: &[usize], w: &[usize]) -> bool {
    let mut i = v.len();
    while i > 0 {
        i -= 1;
        if v[i] != w[i] {
            return v[i] < w[i];
        }
    }
    false
}

#[test]
fn distributions_come_in_increasing_order_each_once() {
    let mut c = Comb::new(2, vec![2, 1, 1]);
    let mut seen: Vec<Vec<usize>> = vec![];
    while let Some(s) = c.next() {
        seen.push(s.clone());
    }
    assert_eq!(seen, vec![vec![2, 0, 0], vec![1, 1, 0], vec![1, 0, 1], vec![0, 1, 1]]);
    for k in 1..seen.len() {
        assert!(colex_before(&seen[k - 1], &seen[k]));
    }
}
