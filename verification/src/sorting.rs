use vstd::prelude::*;

use crate::group::Label;
use crate::order::{labels_less, seq_lt};

verus! {

broadcast use vstd::seq_lib::group_to_multiset_ensures;

/// `s` is in increasing order, repetitions allowed.
pub open spec fn sorted_labels(s: Seq<Label>) -> bool {
    forall|i: int, j: int| 0 <= i < j < s.len() ==> s[i] <= s[j]
}

/// The labels of `v` in increasing order, with their repetitions.
pub fn sort_labels(v: &Vec<Label>) -> (r: Vec<Label>)
    ensures
        sorted_labels(r@),
        r@.to_multiset() == v@.to_multiset(),
        r@.len() == v@.len(),
{
    let mut r: Vec<Label> = Vec::new();
    let mut i: usize = 0;
    while i < v.len()
        invariant
            i <= v@.len(),
            sorted_labels(r@),
            r@.to_multiset() == v@.subrange(0, i as int).to_multiset(),
            r@.len() == i,
        decreases v@.len() - i,
    {
        let x = v[i];
        let mut k: usize = 0;
        while k < r.len() && r[k] <= x
            invariant
                k <= r@.len(),
                forall|q: int| 0 <= q < k ==> r@[q] <= x,
            decreases r@.len() - k,
        {
            k += 1;
        }
        let ghost before = r@;
        r.insert(k, x);
        proof {
            assert(r@ =~= before.subrange(0, k as int).push(x) + before.subrange(k as int, before.len() as int));
            assert(before =~= before.subrange(0, k as int) + before.subrange(k as int, before.len() as int));
            vstd::seq_lib::lemma_multiset_commutative(before.subrange(0, k as int).push(x), before.subrange(k as int, before.len() as int));
            vstd::seq_lib::lemma_multiset_commutative(before.subrange(0, k as int), before.subrange(k as int, before.len() as int));
            assert(v@.subrange(0, i + 1) =~= v@.subrange(0, i as int).push(x));
            assert forall|a: int, b: int| 0 <= a < b < r@.len() implies r@[a] <= r@[b] by {
                if k < before.len() {
                    assert(x < before[k as int]);
                }
                if a < k && b > k {
                    assert(r@[a] == before[a]);
                    assert(r@[b] == before[b - 1]);
                    if b - 1 > a {
                        assert(before[a] <= before[b - 1]);
                    }
                }
            }
        }
        i += 1;
    }
    assert(v@.subrange(0, v@.len() as int) =~= v@);
    r
}

/// A label with a set of labels, as a view.
pub type LabelSetV = (Label, Seq<Label>);

/// The order of pairs of a label and a vector of labels, as the derived `Ord`
/// of the tuple orders them: by the label, then by the vector.
pub open spec fn label_set_le(a: LabelSetV, b: LabelSetV) -> bool {
    a.0 < b.0 || (a.0 == b.0 && !seq_lt(b.1, a.1))
}

/// `s` is in increasing order of `label_set_le`.
pub open spec fn sorted_label_sets(s: Seq<LabelSetV>) -> bool {
    forall|i: int, j: int| 0 <= i < j < s.len() ==> label_set_le(s[i], s[j])
}

/// The view of a sequence of labels with vectors of labels.
pub open spec fn sets_view(v: Seq<(Label, Vec<Label>)>) -> Seq<LabelSetV> {
    v.map_values(|p: (Label, Vec<Label>)| (p.0, p.1@))
}

/// Sorts pairs of a label and a vector of labels, by the label, then by the
/// vector.
pub fn sort_label_sets(v: Vec<(Label, Vec<Label>)>) -> (r: Vec<(Label, Vec<Label>)>)
    ensures
        sorted_label_sets(sets_view(r@)),
        sets_view(r@).to_multiset() == sets_view(v@).to_multiset(),
        r@.len() == v@.len(),
{
    let mut r: Vec<(Label, Vec<Label>)> = Vec::new();
    let mut src = v;
    let ghost orig = sets_view(src@);
    let ghost mut taken: Seq<LabelSetV> = Seq::empty();
    while src.len() > 0
        invariant
            sorted_label_sets(sets_view(r@)),
            sets_view(r@).to_multiset() == taken.to_multiset(),
            orig == taken + sets_view(src@),
            r@.len() == taken.len(),
        decreases src@.len(),
    {
        let ghost sv = sets_view(src@);
        let x = src.remove(0);
        proof {
            assert(sets_view(src@) =~= sv.drop_first());
            assert(sv[0] == (x.0, x.1@));
        }
        let mut k: usize = 0;
        while k < r.len() && (r[k].0 < x.0 || (r[k].0 == x.0 && !labels_less(&x.1, &r[k].1)))
            invariant
                k <= r@.len(),
                forall|q: int| 0 <= q < k ==> label_set_le(#[trigger] sets_view(r@)[q], (x.0, x.1@)),
            decreases r@.len() - k,
        {
            assert(sets_view(r@)[k as int] == (r@[k as int].0, r@[k as int].1@));
            k += 1;
        }
        let ghost before = sets_view(r@);
        let ghost xv = (x.0, x.1@);
        proof {
            if k < before.len() {
                assert(before[k as int] == (r@[k as int].0, r@[k as int].1@));
                assert(!label_set_le(before[k as int], xv));
            }
        }
        r.insert(k, x);
        proof {
            let rv = sets_view(r@);
            assert(rv =~= before.subrange(0, k as int).push(xv) + before.subrange(k as int, before.len() as int));
            assert(before =~= before.subrange(0, k as int) + before.subrange(k as int, before.len() as int));
            vstd::seq_lib::lemma_multiset_commutative(before.subrange(0, k as int).push(xv), before.subrange(k as int, before.len() as int));
            vstd::seq_lib::lemma_multiset_commutative(before.subrange(0, k as int), before.subrange(k as int, before.len() as int));
            assert forall|a: int, b: int| 0 <= a < b < rv.len() implies label_set_le(rv[a], rv[b]) by {
                lemma_label_set_le_facts(before, k as int, xv, a, b);
            }
            taken = taken.push(xv);
            assert(orig =~= taken + sets_view(src@));
        }
    }
    proof {
        assert(sets_view(src@) =~= Seq::<LabelSetV>::empty());
        assert(orig =~= taken);
    }
    r
}

/// Inserting `x` at `k` in a sorted sequence, after the elements not above it
/// and before the first that is above it, keeps it sorted.
proof fn lemma_label_set_le_facts(before: Seq<LabelSetV>, k: int, x: LabelSetV, a: int, b: int)
    requires
        sorted_label_sets(before),
        0 <= k <= before.len(),
        forall|q: int| 0 <= q < k ==> label_set_le(#[trigger] before[q], x),
        k < before.len() ==> !label_set_le(before[k], x),
        0 <= a < b < before.len() + 1,
    ensures
        ({
            let rv = before.subrange(0, k).push(x) + before.subrange(k, before.len() as int);
            label_set_le(rv[a], rv[b])
        }),
{
    let rv = before.subrange(0, k).push(x) + before.subrange(k, before.len() as int);
    if a < k {
        assert(rv[a] == before[a]);
    } else if a == k {
        assert(rv[a] == x);
    } else {
        assert(rv[a] == before[a - 1]);
    }
    if b < k {
        assert(rv[b] == before[b]);
    } else if b == k {
        assert(rv[b] == x);
    } else {
        assert(rv[b] == before[b - 1]);
    }
    if a == k && b > k {
        let y = before[k];
        assert(!label_set_le(y, x));
        if x.0 == y.0 {
            crate::order::lemma_seq_lt_asymmetric(x.1, y.1);
        }
        assert(label_set_le(x, y));
        if b - 1 > k {
            assert(label_set_le(before[k], before[b - 1]));
            lemma_label_set_le_transitive(x, before[k], before[b - 1]);
        }
    } else if a < k && b > k {
        assert(label_set_le(before[a], before[b - 1]));
    } else if a < k && b == k {
        assert(label_set_le(before[a], x));
    } else if a < k && b < k {
        assert(label_set_le(before[a], before[b]));
    } else {
        assert(label_set_le(before[a - 1], before[b - 1]));
    }
}

proof fn lemma_label_set_le_transitive(a: LabelSetV, b: LabelSetV, c: LabelSetV)
    requires
        label_set_le(a, b),
        label_set_le(b, c),
    ensures
        label_set_le(a, c),
{
    if a.0 == b.0 && b.0 == c.0 {
        if seq_lt(c.1, a.1) {
            crate::order::lemma_seq_lt_total(b.1, a.1);
            crate::order::lemma_seq_lt_total(c.1, b.1);
            if seq_lt(a.1, b.1) {
                crate::order::lemma_seq_lt_transitive(c.1, a.1, b.1);
            } else if a.1 == b.1 {
            }
        }
    }
}

} // verus!
