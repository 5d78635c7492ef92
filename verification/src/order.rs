use vstd::prelude::*;

use crate::group::{GroupType, Label};
use crate::part::Part;

verus! {

/// Lexicographic order on sequences of labels, as `Vec`'s `Ord` orders them.
pub open spec fn seq_lt(a: Seq<Label>, b: Seq<Label>) -> bool
    decreases a.len(),
{
    if a.len() == 0 {
        b.len() > 0
    } else if b.len() == 0 {
        false
    } else if a[0] != b[0] {
        a[0] < b[0]
    } else {
        seq_lt(a.drop_first(), b.drop_first())
    }
}

pub proof fn lemma_seq_lt_irreflexive(a: Seq<Label>)
    ensures
        !seq_lt(a, a),
    decreases a.len(),
{
    if a.len() > 0 {
        lemma_seq_lt_irreflexive(a.drop_first());
    }
}

pub proof fn lemma_seq_lt_transitive(a: Seq<Label>, b: Seq<Label>, c: Seq<Label>)
    requires
        seq_lt(a, b),
        seq_lt(b, c),
    ensures
        seq_lt(a, c),
    decreases a.len(),
{
    if a.len() > 0 && b.len() > 0 && c.len() > 0 {
        if a[0] == b[0] && b[0] == c[0] {
            lemma_seq_lt_transitive(a.drop_first(), b.drop_first(), c.drop_first());
        }
    }
}

pub proof fn lemma_seq_lt_total(a: Seq<Label>, b: Seq<Label>)
    ensures
        a == b || seq_lt(a, b) || seq_lt(b, a),
    decreases a.len(),
{
    if a.len() > 0 && b.len() > 0 && a[0] == b[0] {
        lemma_seq_lt_total(a.drop_first(), b.drop_first());
        if a.drop_first() == b.drop_first() {
            assert(a =~= seq![a[0]] + a.drop_first());
            assert(b =~= seq![b[0]] + b.drop_first());
        }
    } else if a.len() == 0 && b.len() == 0 {
        assert(a =~= b);
    }
}

pub proof fn lemma_seq_lt_asymmetric(a: Seq<Label>, b: Seq<Label>)
    requires
        seq_lt(a, b),
    ensures
        !seq_lt(b, a),
{
    if seq_lt(b, a) {
        lemma_seq_lt_transitive(a, b, a);
        lemma_seq_lt_irreflexive(a);
    }
}

/// The order of `GroupType`'s derived `Ord`: by exponent, and `Star` last.
pub open spec fn gtype_lt(a: GroupType, b: GroupType) -> bool {
    match (a, b) {
        (GroupType::Many(x), GroupType::Many(y)) => x < y,
        (GroupType::Many(_), GroupType::Star) => true,
        _ => false,
    }
}

/// The order of `Part`'s derived `Ord`: by number of occurrences, then by group.
pub open spec fn part_lt(a: (GroupType, Seq<Label>), b: (GroupType, Seq<Label>)) -> bool {
    gtype_lt(a.0, b.0) || (a.0 == b.0 && seq_lt(a.1, b.1))
}

pub proof fn lemma_part_lt_irreflexive(a: (GroupType, Seq<Label>))
    ensures
        !part_lt(a, a),
{
    lemma_seq_lt_irreflexive(a.1);
}

pub proof fn lemma_part_lt_transitive(a: (GroupType, Seq<Label>), b: (GroupType, Seq<Label>), c: (GroupType, Seq<Label>))
    requires
        part_lt(a, b),
        part_lt(b, c),
    ensures
        part_lt(a, c),
{
    if a.0 == b.0 && b.0 == c.0 {
        lemma_seq_lt_transitive(a.1, b.1, c.1);
    }
}

pub proof fn lemma_part_lt_total(a: (GroupType, Seq<Label>), b: (GroupType, Seq<Label>))
    ensures
        a == b || part_lt(a, b) || part_lt(b, a),
{
    lemma_seq_lt_total(a.1, b.1);
}

/// Compares two label sequences as `Vec`'s `Ord` does.
pub fn labels_less(a: &Vec<Label>, b: &Vec<Label>) -> (r: bool)
    ensures
        r == seq_lt(a@, b@),
{
    let mut i: usize = 0;
    assert(a@.subrange(0, a@.len() as int) =~= a@);
    assert(b@.subrange(0, b@.len() as int) =~= b@);
    while i < a.len() && i < b.len() && a[i] == b[i]
        invariant
            i <= a@.len(),
            i <= b@.len(),
            seq_lt(a@, b@) == seq_lt(a@.subrange(i as int, a@.len() as int), b@.subrange(i as int, b@.len() as int)),
        decreases a@.len() - i,
    {
        proof {
            let sa = a@.subrange(i as int, a@.len() as int);
            let sb = b@.subrange(i as int, b@.len() as int);
            assert(sa.drop_first() =~= a@.subrange(i + 1, a@.len() as int));
            assert(sb.drop_first() =~= b@.subrange(i + 1, b@.len() as int));
        }
        i += 1;
    }
    if i == a.len() {
        i < b.len()
    } else if i == b.len() {
        false
    } else {
        a[i] < b[i]
    }
}

/// Compares two parts as `Part`'s derived `Ord` does.
pub fn part_less(a: &Part, b: &Part) -> (r: bool)
    ensures
        r == part_lt(a@, b@),
{
    match (a.gtype, b.gtype) {
        (GroupType::Many(x), GroupType::Many(y)) => {
            if x != y {
                x < y
            } else {
                labels_less(&a.group.0, &b.group.0)
            }
        },
        (GroupType::Many(_), GroupType::Star) => true,
        (GroupType::Star, GroupType::Many(_)) => false,
        (GroupType::Star, GroupType::Star) => labels_less(&a.group.0, &b.group.0),
    }
}

/// `s` is strictly increasing in the order of parts.
pub open spec fn parts_strictly_sorted(s: Seq<(GroupType, Seq<Label>)>) -> bool {
    forall|i: int, j: int| 0 <= i < j < s.len() ==> part_lt(s[i], s[j])
}

/// Two strictly increasing sequences of parts with the same elements are
/// equal.
pub proof fn lemma_parts_sorted_same_set(a: Seq<(GroupType, Seq<Label>)>, b: Seq<(GroupType, Seq<Label>)>)
    requires
        parts_strictly_sorted(a),
        parts_strictly_sorted(b),
        a.to_set() == b.to_set(),
    ensures
        a == b,
    decreases a.len(),
{
    if a.len() == 0 {
        if b.len() > 0 {
            assert(b.to_set().contains(b[0]));
        }
        assert(a =~= b);
    } else if b.len() == 0 {
        assert(a.to_set().contains(a[0]));
    } else {
        assert(b.to_set().contains(a[0]));
        assert(a.to_set().contains(b[0]));
        let i = choose|i: int| 0 <= i < b.len() && b[i] == a[0];
        let j = choose|j: int| 0 <= j < a.len() && a[j] == b[0];
        if i > 0 && j > 0 {
            assert(part_lt(b[0], b[i]));
            assert(part_lt(a[0], a[j]));
            lemma_part_lt_transitive(a[0], a[j], a[0]);
            lemma_part_lt_irreflexive(a[0]);
        }
        assert(a[0] == b[0]);
        let a1 = a.drop_first();
        let b1 = b.drop_first();
        assert forall|x: (GroupType, Seq<Label>)| a1.to_set().contains(x) <==> b1.to_set().contains(x) by {
            if a1.contains(x) {
                let k = choose|k: int| 0 <= k < a1.len() && a1[k] == x;
                assert(a[k + 1] == x);
                assert(a.to_set().contains(x));
                assert(b.contains(x));
                let m = choose|m: int| 0 <= m < b.len() && b[m] == x;
                assert(part_lt(a[0], a[k + 1]));
                if m == 0 {
                    lemma_part_lt_irreflexive(x);
                }
                assert(b1[m - 1] == x);
            }
            if b1.contains(x) {
                let k = choose|k: int| 0 <= k < b1.len() && b1[k] == x;
                assert(b[k + 1] == x);
                assert(b.to_set().contains(x));
                assert(a.contains(x));
                let m = choose|m: int| 0 <= m < a.len() && a[m] == x;
                assert(part_lt(b[0], b[k + 1]));
                if m == 0 {
                    lemma_part_lt_irreflexive(x);
                }
                assert(a1[m - 1] == x);
            }
        }
        assert(a1.to_set() =~= b1.to_set());
        lemma_parts_sorted_same_set(a1, b1);
        assert(a =~= seq![a[0]] + a1);
        assert(b =~= seq![b[0]] + b1);
    }
}

/// The views of a sequence of parts.
pub open spec fn parts_view(v: Seq<Part>) -> Seq<(GroupType, Seq<Label>)> {
    v.map_values(|p: Part| p@)
}

/// Sorts distinct parts into increasing order.
pub fn sort_parts(v: &Vec<Part>) -> (r: Vec<Part>)
    requires
        parts_view(v@).no_duplicates(),
    ensures
        parts_strictly_sorted(parts_view(r@)),
        parts_view(r@).to_multiset() == parts_view(v@).to_multiset(),
        r@.len() == v@.len(),
        forall|i: int| 0 <= i < r@.len() ==> parts_view(v@).contains(#[trigger] r@[i]@),
        crate::line::degree_without_star_spec(parts_view(r@)) == crate::line::degree_without_star_spec(parts_view(v@)),
{
    let mut r: Vec<Part> = Vec::new();
    let mut i: usize = 0;
    proof {
        assert(parts_view(r@) =~= parts_view(v@.subrange(0, 0)));
    }
    while i < v.len()
        invariant
            i <= v@.len(),
            r@.len() == i,
            parts_strictly_sorted(parts_view(r@)),
            parts_view(r@).to_multiset() == parts_view(v@.subrange(0, i as int)).to_multiset(),
            parts_view(v@).no_duplicates(),
            forall|k: int| 0 <= k < r@.len() ==> parts_view(v@.subrange(0, i as int)).contains(#[trigger] r@[k]@),
            crate::line::degree_without_star_spec(parts_view(r@)) == crate::line::degree_without_star_spec(parts_view(v@.subrange(0, i as int))),
        decreases v@.len() - i,
    {
        let x = v[i].duplicate();
        let ghost rv = parts_view(r@);
        let mut p: usize = 0;
        while p < r.len() && part_less(&r[p], &x)
            invariant
                p <= r@.len(),
                rv == parts_view(r@),
                forall|k: int| 0 <= k < p ==> part_lt(rv[k], x@),
            decreases r@.len() - p,
        {
            p += 1;
        }
        let ghost old_r = r@;
        r.insert(p, x);
        proof {
            broadcast use vstd::seq_lib::group_to_multiset_ensures;
            let ov = parts_view(old_r);
            let nv = parts_view(r@);
            assert(nv =~= ov.insert(p as int, x@));
            assert forall|k: int| 0 <= k < ov.len() implies ov[k] != x@ by {
                assert(parts_view(v@.subrange(0, i as int)).contains(old_r[k]@));
                let j = choose|j: int| 0 <= j < i && parts_view(v@.subrange(0, i as int))[j] == old_r[k]@;
                assert(parts_view(v@)[j] == ov[k]);
                assert(parts_view(v@)[i as int] == x@);
            }
            if p < ov.len() {
                lemma_part_lt_total(ov[p as int], x@);
            }
            assert forall|a: int, b: int| 0 <= a < b < nv.len() implies part_lt(nv[a], nv[b]) by {
                if a < p && b == p {
                } else if a == p && b > p {
                    if b - 1 > p {
                        lemma_part_lt_transitive(x@, ov[p as int], ov[b - 1]);
                    }
                } else if a < p && b > p {
                    if b - 1 > p {
                        lemma_part_lt_transitive(x@, ov[p as int], ov[b - 1]);
                    }
                    lemma_part_lt_transitive(ov[a], x@, ov[b - 1]);
                } else if a > p {
                    assert(nv[a] == ov[a - 1]);
                    assert(nv[b] == ov[b - 1]);
                }
            }
            let ins = ov.insert(p as int, x@);
            assert(ins.remove(p as int) =~= ov);
            assert(ins.to_multiset() =~= ov.to_multiset().insert(x@));
            assert(v@.subrange(0, i + 1) =~= v@.subrange(0, i as int).push(v@[i as int]));
            assert(parts_view(v@.subrange(0, i + 1)) =~= parts_view(v@.subrange(0, i as int)).push(x@));
            crate::normalize::lemma_degree_insert(ov, p as int, x@);
            assert(parts_view(v@.subrange(0, i as int)).push(x@).drop_last() =~= parts_view(v@.subrange(0, i as int)));
            assert forall|k: int| 0 <= k < r@.len() implies parts_view(v@.subrange(0, i + 1)).contains(#[trigger] r@[k]@) by {
                let w0 = parts_view(v@.subrange(0, i as int));
                let w1 = parts_view(v@.subrange(0, i + 1));
                if k < p {
                    assert(r@[k] == old_r[k]);
                    let j = choose|j: int| 0 <= j < i && w0[j] == old_r[k]@;
                    assert(w1[j] == old_r[k]@);
                } else if k > p {
                    assert(r@[k] == old_r[k - 1]);
                    let j = choose|j: int| 0 <= j < i && w0[j] == old_r[k - 1]@;
                    assert(w1[j] == old_r[k - 1]@);
                } else {
                    assert(w1[i as int] == r@[k]@);
                }
            }
        }
        i += 1;
    }
    assert(v@.subrange(0, v@.len() as int) =~= v@);
    r
}

} // verus!
