use vstd::prelude::*;

use crate::choices::{add_unique, distinct_sorted, vecs_view};
use crate::constraint::{groups_spec, Constraint};
use crate::edit::{edited_lines, EditOp};
use crate::group::{copy_labels, Group, Label};
use crate::order::{labels_less, seq_lt};
use crate::problem::{label_sets_view, label_texts_view, LabelSet, Problem};
use crate::text::{decimal, decimal_string, push_char, push_str};

verus! {

/// The order of label sequences compared from their last labels on.
pub open spec fn rev_lt(a: Seq<Label>, b: Seq<Label>) -> bool {
    seq_lt(a.reverse(), b.reverse())
}

/// Each entry comes before the next when compared from the last labels on.
pub open spec fn rev_sorted(v: Seq<Seq<Label>>) -> bool {
    forall|i: int, j: int| 0 <= i < j < v.len() ==> rev_lt(#[trigger] v[i], #[trigger] v[j])
}

proof fn lemma_reverse_injective(a: Seq<Label>, b: Seq<Label>)
    requires
        a.reverse() == b.reverse(),
    ensures
        a == b,
{
    assert(a.reverse().len() == a.len());
    assert(b.reverse().len() == b.len());
    assert(a.len() == b.len());
    assert forall|i: int| 0 <= i < a.len() implies a[i] == b[i] by {
        assert(a.reverse()[a.len() - 1 - i] == a[i]);
        assert(b.reverse()[b.len() - 1 - i] == b[i]);
    }
    assert(a =~= b);
}

/// The labels of `a` in the opposite order.
fn reversed(a: &Vec<Label>) -> (r: Vec<Label>)
    ensures
        r@ == a@.reverse(),
{
    let mut r: Vec<Label> = Vec::new();
    let mut i: usize = a.len();
    while i > 0
        invariant
            i <= a@.len(),
            r@.len() == a@.len() - i,
            forall|q: int| 0 <= q < r@.len() ==> r@[q] == a@[a@.len() - 1 - q],
        decreases i,
    {
        i -= 1;
        r.push(a[i]);
    }
    assert(r@ =~= a@.reverse());
    r
}

/// The entries of `v` ordered from their last labels on.
pub fn sort_by_last_labels(v: &Vec<Vec<Label>>) -> (r: Vec<Vec<Label>>)
    requires
        forall|i: int, j: int| 0 <= i < j < v@.len() ==> (#[trigger] v@[i])@ != (#[trigger] v@[j])@,
    ensures
        rev_sorted(vecs_view(r@)),
        vecs_view(r@).to_set() == vecs_view(v@).to_set(),
        r@.len() == v@.len(),
{
    let ghost vv = vecs_view(v@);
    let mut r: Vec<Vec<Label>> = Vec::new();
    let mut i: usize = 0;
    while i < v.len()
        invariant
            i <= v@.len(),
            vv == vecs_view(v@),
            forall|a: int, b: int| 0 <= a < b < v@.len() ==> (#[trigger] v@[a])@ != (#[trigger] v@[b])@,
            rev_sorted(vecs_view(r@)),
            vecs_view(r@).to_set() == vv.subrange(0, i as int).to_set(),
            r@.len() == i,
        decreases v@.len() - i,
    {
        let x = copy_labels(&v[i]);
        assert(x@ == vv[i as int]);
        let xr = reversed(&x);
        let ghost before = vecs_view(r@);
        let mut k: usize = 0;
        while k < r.len() && labels_less(&reversed(&r[k]), &xr)
            invariant
                k <= r@.len(),
                before == vecs_view(r@),
                xr@ == x@.reverse(),
                forall|q: int| 0 <= q < k ==> rev_lt(#[trigger] before[q], x@),
            decreases r@.len() - k,
        {
            assert(before[k as int] == r@[k as int]@);
            k += 1;
        }
        proof {
            assert(!before.contains(x@)) by {
                if before.contains(x@) {
                    assert(before.to_set().contains(x@));
                    let q = choose|q: int| 0 <= q < i && vv.subrange(0, i as int)[q] == x@;
                    assert(vv[q] == v@[q]@);
                    assert(vv[i as int] == v@[i as int]@);
                }
            }
            if k < before.len() {
                assert(before[k as int] == r@[k as int]@);
                assert(!rev_lt(before[k as int], x@));
                crate::order::lemma_seq_lt_total(before[k as int].reverse(), x@.reverse());
                if before[k as int].reverse() == x@.reverse() {
                    lemma_reverse_injective(before[k as int], x@);
                }
                assert(rev_lt(x@, before[k as int]));
            }
        }
        r.insert(k, x);
        proof {
            let after = vecs_view(r@);
            assert(after =~= before.subrange(0, k as int).push(x@) + before.subrange(k as int, before.len() as int));
            assert forall|a: int, b: int| 0 <= a < b < after.len() implies rev_lt(#[trigger] after[a], #[trigger] after[b]) by {
                if a < k && b == k {
                } else if a < k && b > k {
                    assert(after[a] == before[a] && after[b] == before[b - 1]);
                    if b - 1 > a {
                        assert(rev_lt(before[a], before[b - 1]));
                    }
                } else if a == k {
                    assert(after[b] == before[b - 1]);
                    if b - 1 > k {
                        assert(rev_lt(before[k as int], before[b - 1]));
                        crate::order::lemma_seq_lt_transitive(x@.reverse(), before[k as int].reverse(), before[b - 1].reverse());
                    }
                } else if a > k {
                    assert(after[a] == before[a - 1] && after[b] == before[b - 1]);
                } else {
                    assert(after[a] == before[a] && after[b] == before[b]);
                }
            }
            assert(vv.subrange(0, i + 1) =~= vv.subrange(0, i as int).push(x@));
            assert forall|y: Seq<Label>| after.to_set().contains(y) <==> before.to_set().insert(x@).contains(y) by {
                if after.to_set().contains(y) {
                    let q = choose|q: int| 0 <= q < after.len() && after[q] == y;
                    if q < k {
                        assert(before[q] == y);
                    } else if q > k {
                        assert(before[q - 1] == y);
                    }
                }
                if before.to_set().contains(y) {
                    let q = choose|q: int| 0 <= q < before.len() && before[q] == y;
                    if q < k {
                        assert(after[q] == y);
                    } else {
                        assert(after[q + 1] == y);
                    }
                }
                if y == x@ {
                    assert(after[k as int] == y);
                }
            }
            assert(after.to_set() =~= before.to_set().insert(x@));
            vv.subrange(0, i as int).lemma_push_to_set_commute(x@);
        }
        i += 1;
    }
    assert(vv.subrange(0, vv.len() as int) =~= vv);
    r
}

/// The one-character name of label `i`: capital letters, then small
/// letters, then digits, then the characters after `z`.
pub open spec fn label_char(i: Label) -> char {
    if i <= 25 {
        (65 + i) as char
    } else if i <= 51 {
        (97 + (i - 26)) as char
    } else if i <= 61 {
        (48 + (i - 52)) as char
    } else {
        (123 + (i - 62)) as char
    }
}

/// The name of label `i` among `n` labels: one character when there are at
/// most 62 labels, else the number in parentheses.
pub open spec fn label_name(i: Label, n: nat) -> Seq<char> {
    if n <= 62 {
        seq![label_char(i)]
    } else {
        seq!['('] + decimal(i as nat) + seq![')']
    }
}

/// The names of the labels of `v`, in order.
pub open spec fn names_of(v: Seq<Label>) -> Seq<(Label, Seq<char>)> {
    Seq::new(v.len(), |k: int| (v[k], label_name(v[k], v.len())))
}

/// The one-character name of a label below 195.
fn char_of(i: Label) -> (r: char)
    requires
        i <= 194,
    ensures
        r == label_char(i),
{
    let b: u8 = if i <= 25 {
        (65 + i) as u8
    } else if i <= 51 {
        (97 + (i - 26)) as u8
    } else if i <= 61 {
        (48 + (i - 52)) as u8
    } else {
        (123 + (i - 62)) as u8
    };
    b as char
}

/// Names the labels of `v`: by one character each when there are at most 62
/// of them, else by their numbers in parentheses.
pub fn label_names(v: &Vec<Label>) -> (r: Vec<(Label, String)>)
    requires
        v@.len() <= 62 ==> forall|k: int| 0 <= k < v@.len() ==> #[trigger] v@[k] <= 194,
    ensures
        label_texts_view(r@) == names_of(v@),
{
    let n = v.len();
    let mut r: Vec<(Label, String)> = Vec::new();
    let mut k: usize = 0;
    while k < n
        invariant
            k <= n,
            n == v@.len(),
            n <= 62 ==> forall|k: int| 0 <= k < v@.len() ==> #[trigger] v@[k] <= 194,
            label_texts_view(r@) == names_of(v@).subrange(0, k as int),
        decreases n - k,
    {
        let i = v[k];
        let mut s = String::new();
        if n <= 62 {
            push_char(&mut s, char_of(i));
            assert(s@ =~= label_name(i, n as nat));
        } else {
            push_char(&mut s, '(');
            let d = decimal_string(i as u64);
            push_str(&mut s, d.as_str());
            push_char(&mut s, ')');
            assert(s@ =~= label_name(i, n as nat));
        }
        let ghost before = r@;
        r.push((i, s));
        proof {
            assert(label_texts_view(r@) =~= label_texts_view(before).push((i, label_name(i, n as nat))));
            assert(names_of(v@).subrange(0, k + 1) =~= names_of(v@).subrange(0, k as int).push((i, label_name(i, n as nat))));
        }
        k += 1;
    }
    assert(names_of(v@).subrange(0, n as int) =~= names_of(v@));
    r
}

/// Each position `i` of `names` as a label, with the labels at it.
pub open spec fn numbered_sets(names: Seq<Seq<Label>>) -> Seq<(Label, Seq<Label>)> {
    Seq::new(names.len(), |i: int| (i as Label, names[i]))
}

/// The views of the groups of a constraint, each once, ordered from their
/// last labels on.
pub open spec fn group_names_ok(names: Seq<Seq<Label>>, c: Seq<Seq<crate::line::PartV>>) -> bool {
    &&& rev_sorted(names)
    &&& names.to_set() == groups_spec(c).to_set()
}

/// The distinct groups of a constraint, ordered from their last labels on.
pub fn group_names(c: &Constraint) -> (r: Vec<Vec<Label>>)
    requires
        c.wf(),
    ensures
        group_names_ok(vecs_view(r@), c@),
{
    let gs = c.groups();
    let ghost gv = gs@.map_values(|g: Group| g@);
    proof {
        lemma_groups_sorted(c@);
    }
    let mut distinct: Vec<Vec<Label>> = Vec::new();
    let mut i: usize = 0;
    while i < gs.len()
        invariant
            i <= gs@.len(),
            gv == gs@.map_values(|g: Group| g@),
            gv == groups_spec(c@),
            forall|q: int| 0 <= q < gv.len() ==> crate::group::strictly_sorted(#[trigger] gv[q]),
            distinct_sorted(vecs_view(distinct@)),
            vecs_view(distinct@).to_set() == gv.subrange(0, i as int).to_set(),
        decreases gs@.len() - i,
    {
        let x = gs[i].as_vec();
        assert(x@ == gv[i as int]);
        let ghost before = vecs_view(distinct@);
        add_unique(&mut distinct, x);
        proof {
            assert(gv.subrange(0, i + 1) =~= gv.subrange(0, i as int).push(x@));
            gv.subrange(0, i as int).lemma_push_to_set_commute(x@);
            if before.contains(x@) {
                assert(vecs_view(distinct@) == before);
                assert(before.to_set().contains(x@));
                assert(before.to_set().insert(x@) =~= before.to_set());
            } else {
                before.lemma_push_to_set_commute(x@);
            }
        }
        i += 1;
    }
    assert(gv.subrange(0, gv.len() as int) =~= gv);
    proof {
        let dv = vecs_view(distinct@);
        assert forall|a: int, b: int| 0 <= a < b < distinct@.len() implies (#[trigger] distinct@[a])@ != (#[trigger] distinct@[b])@ by {
            assert(dv[a] == distinct@[a]@ && dv[b] == distinct@[b]@);
        }
    }
    sort_by_last_labels(&distinct)
}

/// The groups of well-formed lines are strictly increasing.
pub(crate) proof fn lemma_groups_sorted(ls: Seq<Seq<crate::line::PartV>>)
    requires
        forall|k: int, i: int| 0 <= k < ls.len() && 0 <= i < ls[k].len() ==> crate::group::strictly_sorted(#[trigger] ls[k][i].1),
    ensures
        forall|q: int| 0 <= q < groups_spec(ls).len() ==> crate::group::strictly_sorted(#[trigger] groups_spec(ls)[q]),
    decreases ls.len(),
{
    if ls.len() > 0 {
        let p = ls.drop_last();
        assert forall|k: int, i: int| 0 <= k < p.len() && 0 <= i < p[k].len() implies crate::group::strictly_sorted(#[trigger] p[k][i].1) by {
            assert(p[k] == ls[k]);
        }
        lemma_groups_sorted(p);
        let last = ls.last().map_values(|pv: crate::line::PartV| pv.1);
        assert forall|q: int| 0 <= q < groups_spec(ls).len() implies crate::group::strictly_sorted(#[trigger] groups_spec(ls)[q]) by {
            let g = groups_spec(p);
            if q >= g.len() {
                assert(groups_spec(ls)[q] == last[q - g.len()]);
                assert(ls[ls.len() - 1] == ls.last());
            } else {
                assert(groups_spec(ls)[q] == g[q]);
            }
        }
    }
}

impl Problem {
    /// One step of round elimination: the passive constraint, maximized,
    /// becomes the active one, each of its groups a new label (the groups
    /// numbered in order of their last labels); the old active constraint
    /// becomes the passive one, each group replaced by the new labels whose
    /// groups meet it. The old names and diagram are kept as the old ones.
    pub fn speedup(&self) -> (r: Problem)
        requires
            self.active.wf(),
            self.passive.wf(),
        ensures
            exists|m: Constraint, na: Vec<Vec<Label>>, nb: Vec<Vec<Label>>| #![trigger group_names_ok(vecs_view(na@), m@), vecs_view(nb@)] {
                &&& crate::maximize::maximized_from(self.passive, m)
                &&& group_names_ok(vecs_view(na@), m@)
                &&& vecs_view(nb@) == vecs_view(na@)
                &&& r.mapping_label_oldlabels is Some
                &&& label_sets_view(r.mapping_label_oldlabels->Some_0@) == numbered_sets(vecs_view(na@))
                &&& edited_lines(EditOp::Number { names: na }, m@, r.active@)
                &&& edited_lines(EditOp::Meeting { names: nb }, self.active@, r.passive@)
            },
            r.active.wf(),
            r.passive.wf(),
            r.active.degree == self.passive.degree,
            r.passive.degree == self.active.degree,
            r.mapping_oldlabel_text is Some,
            label_texts_view(r.mapping_oldlabel_text->Some_0@) == label_texts_view(self.mapping_label_text@),
            crate::renaming::opt_pairs_view(r.diagram_indirect_old) == crate::renaming::opt_pairs_view(self.diagram_indirect),
            r.orientation_given == self.orientation_given,
            label_texts_view(r.mapping_label_text@) == names_of(Seq::new(
                label_sets_view(r.mapping_label_oldlabels->Some_0@).len(), |i: int| i as Label)),
            r.passive_gen is None,
            r.mapping_oldlabel_labels is None,
            r.trivial_sets is None,
            r.coloring_sets is None,
            r.diagram_indirect is None,
            r.diagram_direct is None,
            r.orientation_trivial_sets is None,
            r.orientation_coloring_sets is None,
    {
        let mut m = self.passive.duplicate();
        m.maximize();
        let names = group_names(&m);
        let ghost nv = vecs_view(names@);
        let mut sets: Vec<LabelSet> = Vec::new();
        let mut ids: Vec<Label> = Vec::new();
        let mut i: usize = 0;
        while i < names.len()
            invariant
                i <= names@.len(),
                nv == vecs_view(names@),
                label_sets_view(sets@) == numbered_sets(nv).subrange(0, i as int),
                ids@ == Seq::new(i as nat, |q: int| q as Label),
            decreases names@.len() - i,
        {
            let l = #[verifier::truncate] (i as Label);
            let ghost before = sets@;
            sets.push((l, copy_labels(&names[i])));
            ids.push(l);
            proof {
                assert(label_sets_view(sets@) =~= label_sets_view(before).push((l, nv[i as int])));
                assert(numbered_sets(nv).subrange(0, i + 1) =~= numbered_sets(nv).subrange(0, i as int).push((l, nv[i as int])));
                assert(ids@ =~= Seq::new((i + 1) as nat, |q: int| q as Label));
            }
            i += 1;
        }
        assert(numbered_sets(nv).subrange(0, nv.len() as int) =~= numbered_sets(nv));
        proof {
            if ids@.len() <= 62 {
                assert forall|k: int| 0 <= k < ids@.len() implies #[trigger] ids@[k] <= 194 by {}
            }
        }
        let texts = label_names(&ids);
        let na = copy_names(&names);
        let nb = copy_names(&names);
        let ghost gna = na;
        let ghost gnb = nb;
        proof {
            assert(vecs_view(gna@) =~= nv);
            assert(vecs_view(gnb@) =~= nv);
        }
        let number = EditOp::Number { names: na };
        let active = m.edit_constraint(&number);
        let meeting = EditOp::Meeting { names: nb };
        let passive = self.active.edit_constraint(&meeting);
        let r = Problem {
            active,
            passive,
            passive_gen: None,
            mapping_label_text: texts,
            mapping_label_oldlabels: Some(sets),
            mapping_oldlabel_labels: None,
            mapping_oldlabel_text: Some(crate::problem::copy_label_texts(&self.mapping_label_text)),
            trivial_sets: None,
            coloring_sets: None,
            diagram_indirect: None,
            diagram_indirect_old: crate::problem::copy_opt_pairs(&self.diagram_indirect),
            diagram_direct: None,
            orientation_given: self.orientation_given,
            orientation_trivial_sets: None,
            orientation_coloring_sets: None,
            fixpoint_procedure_works: None,
            marks_works: None,
            demisifiable: None,
            is_trivial_with_input: None,
            triviality_with_input: None,
            expressions: None,
        };
        proof {
            assert(label_sets_view(r.mapping_label_oldlabels->Some_0@).len() == nv.len());
            assert(ids@ =~= Seq::new(label_sets_view(r.mapping_label_oldlabels->Some_0@).len(), |i: int| i as Label));
            assert(group_names_ok(vecs_view(gna@), m@));
            assert(vecs_view(gnb@) == vecs_view(gna@));
        }
        r
    }
}

/// A copy of a list of label vectors.
pub(crate) fn copy_names(v: &Vec<Vec<Label>>) -> (r: Vec<Vec<Label>>)
    ensures
        r@.len() == v@.len(),
        forall|i: int| 0 <= i < r@.len() ==> (#[trigger] r@[i])@ == v@[i]@,
{
    let mut r: Vec<Vec<Label>> = Vec::new();
    let mut i: usize = 0;
    while i < v.len()
        invariant
            i <= v@.len(),
            r@.len() == i,
            forall|q: int| 0 <= q < i ==> (#[trigger] r@[q])@ == v@[q]@,
        decreases v@.len() - i,
    {
        r.push(copy_labels(&v[i]));
        i += 1;
    }
    r
}

} // verus!
