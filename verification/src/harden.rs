use vstd::prelude::*;
use std::collections::HashSet;

use crate::constraint::labels_spec;
use crate::edit::{edit_set, edited_lines, edited_parts, sorted_of, EditOp};
use crate::group::{strictly_sorted, Group, Label};
use crate::line::{normalized_from, star_labels, PartV};
use crate::problem::{label_sets_view, label_texts_view, LabelSet, Problem};

verus! {

broadcast use vstd::std_specs::hash::group_hash_axioms;

/// `x` put at its place in the strictly increasing sequence `q`.
pub open spec fn insert_sorted(q: Seq<Label>, x: Label) -> Seq<Label>
    decreases q.len(),
{
    if q.len() == 0 {
        seq![x]
    } else if q.last() < x {
        q.push(x)
    } else {
        insert_sorted(q.drop_last(), x).push(q.last())
    }
}

proof fn lemma_insert_sorted(q: Seq<Label>, x: Label)
    requires
        strictly_sorted(q),
        !q.contains(x),
    ensures
        strictly_sorted(insert_sorted(q, x)),
        insert_sorted(q, x).to_set() == q.to_set().insert(x),
    decreases q.len(),
{
    if q.len() == 0 {
        assert(seq![x].to_set() =~= set![x]) by {
            assert(seq![x][0] == x);
        }
        assert(q.to_set() =~= Set::<Label>::empty());
    } else if q.last() < x {
        q.lemma_push_to_set_commute(x);
        assert forall|i: int, j: int| 0 <= i < j < q.push(x).len() implies q.push(x)[i] < q.push(x)[j] by {
            if j == q.len() {
                if i < q.len() - 1 {
                    assert(q[i] < q[q.len() - 1]);
                }
            }
        }
    } else {
        let p = q.drop_last();
        let m = q.last();
        assert(q[q.len() - 1] == m);
        assert(!p.contains(x)) by {
            if p.contains(x) {
                let k = choose|k: int| 0 <= k < p.len() && p[k] == x;
                assert(q[k] == x);
            }
        }
        assert(m != x);
        lemma_insert_sorted(p, x);
        let r = insert_sorted(p, x);
        assert forall|i: int| 0 <= i < r.len() implies r[i] < m by {
            assert(r.to_set().contains(r[i]));
            if r[i] != x {
                assert(p.to_set().contains(r[i]));
                let k = choose|k: int| 0 <= k < p.len() && p[k] == r[i];
                assert(q[k] < q[q.len() - 1]);
            }
        }
        r.lemma_push_to_set_commute(m);
        assert(q =~= p.push(m));
        p.lemma_push_to_set_commute(m);
        assert(r.push(m).to_set() =~= q.to_set().insert(x));
    }
}

/// A finite set of labels has a strictly increasing sequence of its labels.
pub proof fn lemma_sorted_exists(s: Set<Label>)
    requires
        s.finite(),
    ensures
        exists|q: Seq<Label>| strictly_sorted(q) && q.to_set() == s,
    decreases s.len(),
{
    if s.len() == 0 {
        assert(s =~= Set::<Label>::empty());
        assert(Seq::<Label>::empty().to_set() =~= s);
        assert(strictly_sorted(Seq::<Label>::empty()));
    } else {
        let x = s.choose();
        let s2 = s.remove(x);
        lemma_sorted_exists(s2);
        let q = choose|q: Seq<Label>| strictly_sorted(q) && q.to_set() == s2;
        assert(!q.contains(x)) by {
            if q.contains(x) {
                assert(q.to_set().contains(x));
            }
        }
        lemma_insert_sorted(q, x);
        assert(s2.insert(x) =~= s);
        assert(strictly_sorted(insert_sorted(q, x)) && insert_sorted(q, x).to_set() == s);
    }
}

/// The sorted sequence of a finite set of labels holds its labels.
pub proof fn lemma_sorted_of_finite(s: Set<Label>)
    requires
        s.finite(),
    ensures
        strictly_sorted(sorted_of(s)),
        sorted_of(s).to_set() == s,
{
    lemma_sorted_exists(s);
}

/// The labels of the starred parts lie in `k` when all groups do.
proof fn lemma_star_labels_within(ps: Seq<PartV>, k: Set<Label>)
    requires
        forall|i: int| 0 <= i < ps.len() ==> (#[trigger] ps[i]).1.to_set().subset_of(k),
    ensures
        star_labels(ps).subset_of(k),
    decreases ps.len(),
{
    if ps.len() > 0 {
        let p = ps.drop_last();
        assert forall|i: int| 0 <= i < p.len() implies (#[trigger] p[i]).1.to_set().subset_of(k) by {
            assert(p[i] == ps[i]);
        }
        lemma_star_labels_within(p, k);
        assert(ps.last() == ps[ps.len() - 1]);
    }
}

/// The groups of a normal form lie in `k` when those of the parts do.
proof fn lemma_normal_within(r: Seq<PartV>, ps: Seq<PartV>, k: Set<Label>)
    requires
        normalized_from(r, ps),
        forall|i: int| 0 <= i < ps.len() ==> (#[trigger] ps[i]).1.to_set().subset_of(k),
    ensures
        forall|i: int| 0 <= i < r.len() ==> (#[trigger] r[i]).1.to_set().subset_of(k),
{
    lemma_star_labels_within(ps, k);
    assert forall|i: int| 0 <= i < r.len() implies (#[trigger] r[i]).1.to_set().subset_of(k) by {
        if r[i].0 != crate::group::GroupType::Star {
            crate::normalize::lemma_count_positive(ps, r[i].1);
            let j = choose|j: int| 0 <= j < ps.len() && (#[trigger] ps[j]).0 != crate::group::GroupType::Star && ps[j].1 == r[i].1;
        }
    }
}

/// After keeping only the labels of `keep`, every label lies in `keep`.
proof fn lemma_harden_within(keep: Group, ls: Seq<Seq<PartV>>, rs: Seq<Seq<PartV>>)
    requires
        edited_lines(EditOp::Keep { keep }, ls, rs),
    ensures
        labels_spec(rs).subset_of(keep@.to_set()),
    decreases ls.len(),
{
    let kset = keep@.to_set();
    if ls.len() > 0 {
        let op = EditOp::Keep { keep };
        let e = edited_parts(op, ls.last());
        assert forall|i: int| 0 <= i < e.len() implies (#[trigger] e[i]).1.to_set().subset_of(kset) by {
            let s = ls.last()[i].1.to_set().intersect(kset);
            assert(s.subset_of(ls.last()[i].1.to_set()));
            vstd::set_lib::lemma_set_subset_finite(ls.last()[i].1.to_set(), s);
            lemma_sorted_of_finite(s);
            assert(e[i].1 == sorted_of(edit_set(op, ls.last()[i].1)));
        }
        if rs.len() > 0 && normalized_from(rs.last(), e) && crate::edit::groups_nonempty(rs.last())
            && edited_lines(op, ls.drop_last(), rs.drop_last()) {
            lemma_harden_within(keep, ls.drop_last(), rs.drop_last());
            lemma_normal_within(rs.last(), e, kset);
            assert forall|l: Label| labels_spec(rs).contains(l) implies kset.contains(l) by {
                let (a, b) = choose|a: int, b: int| 0 <= a < rs.len() && 0 <= b < rs[a].len() && (#[trigger] rs[a][b]).1.contains(l);
                if a < rs.len() - 1 {
                    assert(rs.drop_last()[a][b] == rs[a][b]);
                    assert(labels_spec(rs.drop_last()).contains(l));
                } else {
                    assert(rs[a] == rs.last());
                    assert(rs.last()[b].1.to_set().contains(l));
                }
            }
        } else {
            lemma_harden_within(keep, ls.drop_last(), rs);
        }
    } else {
        assert(labels_spec(rs) =~= Set::<Label>::empty());
    }
}

/// The entries of `v` whose label is in `keep`, in order.
pub open spec fn texts_kept(v: Seq<(Label, Seq<char>)>, keep: Set<Label>) -> Seq<(Label, Seq<char>)>
    decreases v.len(),
{
    if v.len() == 0 {
        Seq::empty()
    } else if keep.contains(v.last().0) {
        texts_kept(v.drop_last(), keep).push(v.last())
    } else {
        texts_kept(v.drop_last(), keep)
    }
}

/// The entries of `v` whose label is in `keep`, in order.
pub open spec fn sets_kept(v: Seq<(Label, Seq<Label>)>, keep: Set<Label>) -> Seq<(Label, Seq<Label>)>
    decreases v.len(),
{
    if v.len() == 0 {
        Seq::empty()
    } else if keep.contains(v.last().0) {
        sets_kept(v.drop_last(), keep).push(v.last())
    } else {
        sets_kept(v.drop_last(), keep)
    }
}

/// Every label of the pairs' second components is reached by some pair.
pub open spec fn has_predecessors(pairs: Seq<(Label, Label)>, ls: Seq<Seq<PartV>>) -> bool {
    forall|l: Label| labels_spec(ls).contains(l) ==> exists|q: int| 0 <= q < pairs.len() && (#[trigger] pairs[q]).1 == l
}

/// Keeps the entries whose label is in `keep`.
fn keep_texts(v: &Vec<(Label, String)>, keep: &Group) -> (r: Vec<(Label, String)>)
    ensures
        label_texts_view(r@) == texts_kept(label_texts_view(v@), keep@.to_set()),
{
    let mut r: Vec<(Label, String)> = Vec::new();
    let mut i: usize = 0;
    while i < v.len()
        invariant
            i <= v@.len(),
            label_texts_view(r@) == texts_kept(label_texts_view(v@.subrange(0, i as int)), keep@.to_set()),
        decreases v@.len() - i,
    {
        let ghost before = r@;
        proof {
            let sub = label_texts_view(v@.subrange(0, i + 1));
            assert(sub.drop_last() =~= label_texts_view(v@.subrange(0, i as int)));
            assert(sub.last() == (v@[i as int].0, v@[i as int].1@));
        }
        if keep.contains(v[i].0) {
            let s = v[i].1.clone();
            r.push((v[i].0, s));
            assert(label_texts_view(r@) =~= label_texts_view(before).push((v@[i as int].0, v@[i as int].1@)));
        }
        i += 1;
    }
    assert(v@.subrange(0, v@.len() as int) =~= v@);
    r
}

/// Keeps the entries whose label is in `keep`.
fn keep_sets(v: &Vec<LabelSet>, keep: &Group) -> (r: Vec<LabelSet>)
    ensures
        label_sets_view(r@) == sets_kept(label_sets_view(v@), keep@.to_set()),
{
    let mut r: Vec<LabelSet> = Vec::new();
    let mut i: usize = 0;
    while i < v.len()
        invariant
            i <= v@.len(),
            label_sets_view(r@) == sets_kept(label_sets_view(v@.subrange(0, i as int)), keep@.to_set()),
        decreases v@.len() - i,
    {
        let ghost before = r@;
        proof {
            let sub = label_sets_view(v@.subrange(0, i + 1));
            assert(sub.drop_last() =~= label_sets_view(v@.subrange(0, i as int)));
            assert(sub.last() == (v@[i as int].0, v@[i as int].1@));
        }
        if keep.contains(v[i].0) {
            let s = crate::group::copy_labels(&v[i].1);
            r.push((v[i].0, s));
            assert(label_sets_view(r@) =~= label_sets_view(before).push((v@[i as int].0, v@[i as int].1@)));
        }
        i += 1;
    }
    assert(v@.subrange(0, v@.len() as int) =~= v@);
    r
}

/// A strictly increasing sequence has as many labels as its set.
proof fn lemma_sorted_len(q: Seq<Label>)
    requires
        strictly_sorted(q),
    ensures
        q.to_set().len() == q.len(),
{
    assert(q.no_duplicates()) by {
        assert forall|i: int, j: int| 0 <= i < q.len() && 0 <= j < q.len() && i != j implies q[i] != q[j] by {
            if i < j {
                assert(q[i] < q[j]);
            } else {
                assert(q[j] < q[i]);
            }
        }
    }
    q.unique_seq_to_set();
}

/// The active side that hardening starts from: with the predecessors of its
/// labels added when `add_predecessors`, else as it is.
pub open spec fn harden_start(p: Problem, add_predecessors: bool, a1: Seq<Seq<PartV>>) -> bool {
    if add_predecessors {
        exists|pairs: Vec<(Label, Label)>| pairs@ == p.diagram_indirect->Some_0@
            && #[trigger] edited_lines(EditOp::AddPredecessors { pairs }, p.active@, a1)
    } else {
        a1 == p.active@
    }
}

/// Both sides keep only the labels of `k`, lines with an empty group going.
pub open spec fn restricted_to(a1: Seq<Seq<PartV>>, p1: Seq<Seq<PartV>>, k: Group, ra: Seq<Seq<PartV>>, rp: Seq<Seq<PartV>>) -> bool {
    &&& edited_lines(EditOp::Keep { keep: k }, a1, ra)
    &&& edited_lines(EditOp::Keep { keep: k }, p1, rp)
}

/// One round of hardening: both sides restricted to `prev` use, between them,
/// the labels of `next`.
pub open spec fn harden_round(a1: Seq<Seq<PartV>>, p1: Seq<Seq<PartV>>, prev: Set<Label>, next: Set<Label>) -> bool {
    exists|g: Group, ra: Seq<Seq<PartV>>, rp: Seq<Seq<PartV>>| g@.to_set() == prev
        && #[trigger] restricted_to(a1, p1, g, ra, rp)
        && next == labels_spec(ra).intersect(labels_spec(rp))
}

/// `k` is reached from `keep` by `n` rounds of hardening, each round keeping
/// the labels that both sides restricted to the previous set still use.
pub open spec fn harden_reached(a1: Seq<Seq<PartV>>, p1: Seq<Seq<PartV>>, keep: Set<Label>, k: Set<Label>, n: nat) -> bool
    decreases n,
{
    if n == 0 {
        k == keep
    } else {
        exists|prev: Set<Label>| harden_reached(a1, p1, keep, prev, (n - 1) as nat)
            && #[trigger] harden_round(a1, p1, prev, k)
    }
}

/// The fields that hardening carries over or clears.
pub open spec fn hardened_fields(p: Problem, r: Problem) -> bool {
    &&& (r.mapping_oldlabel_labels is Some <==> p.mapping_oldlabel_labels is Some)
    &&& (r.mapping_oldlabel_labels is Some ==> label_sets_view(r.mapping_oldlabel_labels->Some_0@) == label_sets_view(p.mapping_oldlabel_labels->Some_0@))
    &&& (r.mapping_oldlabel_text is Some <==> p.mapping_oldlabel_text is Some)
    &&& (r.mapping_oldlabel_text is Some ==> r.mapping_oldlabel_text->Some_0@ == p.mapping_oldlabel_text->Some_0@)
    &&& (r.diagram_indirect_old is Some <==> p.diagram_indirect_old is Some)
    &&& (r.diagram_indirect_old is Some ==> r.diagram_indirect_old->Some_0@ == p.diagram_indirect_old->Some_0@)
    &&& r.orientation_given == p.orientation_given
    &&& r.passive_gen is None
    &&& r.trivial_sets is None
    &&& r.coloring_sets is None
    &&& r.diagram_indirect is None
    &&& r.diagram_direct is None
    &&& r.orientation_coloring_sets is None
    &&& r.orientation_trivial_sets is None
    &&& r.fixpoint_procedure_works is None
    &&& r.marks_works is None
    &&& r.demisifiable is None
    &&& r.is_trivial_with_input is None
    &&& r.triviality_with_input is None
    &&& r.expressions is None
}

/// What hardening to the labels of `keep` gives: both sides restricted to a
/// set `K` of labels of `keep`, `K` being exactly the labels that both
/// restricted sides still use, and only the names of `K` kept.
pub open spec fn hardened(p: Problem, keep: Set<Label>, add_predecessors: bool, r: Problem) -> bool {
    &&& r.active.wf() && r.passive.wf()
    &&& r.active.degree == p.active.degree
    &&& r.passive.degree == p.passive.degree
    &&& labels_spec(r.active@) == labels_spec(r.passive@)
    &&& labels_spec(r.active@).subset_of(keep)
    &&& exists|a1: Seq<Seq<PartV>>, k: Group| harden_start(p, add_predecessors, a1)
        && k@.to_set() == labels_spec(r.active@)
        && #[trigger] restricted_to(a1, p.passive@, k, r.active@, r.passive@)
        && exists|n: nat| harden_reached(a1, p.passive@, keep, k@.to_set(), n)
    &&& label_texts_view(r.mapping_label_text@) == texts_kept(label_texts_view(p.mapping_label_text@), labels_spec(r.active@))
    &&& (r.mapping_label_oldlabels is Some <==> p.mapping_label_oldlabels is Some)
    &&& (r.mapping_label_oldlabels is Some ==> label_sets_view(r.mapping_label_oldlabels->Some_0@)
        == sets_kept(label_sets_view(p.mapping_label_oldlabels->Some_0@), labels_spec(r.active@)))
    &&& hardened_fields(p, r)
}

impl Problem {
    /// Keeps only the labels of `keep`, first giving the active side the
    /// predecessors of its labels if `add_predecessors`; then, as long as a
    /// label of `keep` is missing on one side, it goes from `keep` too, and
    /// both sides are hardened again. Lines in which a group becomes empty go.
    /// In the end both sides use the same labels, and only their names stay.
    pub fn harden_keep(&self, keep: &HashSet<Label>, add_predecessors: bool) -> (r: Problem)
        requires
            self.active.wf(),
            self.passive.wf(),
            add_predecessors ==> self.diagram_indirect is Some
                && has_predecessors(self.diagram_indirect->Some_0@, self.active@),
        ensures
            hardened(*self, keep@, add_predecessors, r),
    {
        let a1 = if add_predecessors {
            let d = self.diagram_indirect.as_ref().unwrap();
            let mut pairs: Vec<(Label, Label)> = Vec::new();
            let mut i: usize = 0;
            while i < d.len()
                invariant
                    i <= d@.len(),
                    pairs@ == d@.subrange(0, i as int),
                decreases d@.len() - i,
            {
                pairs.push(d[i]);
                i += 1;
                assert(pairs@ =~= d@.subrange(0, i as int));
            }
            assert(pairs@ =~= d@);
            let c = self.active.edit_constraint(&EditOp::AddPredecessors { pairs });
            assert(harden_start(*self, add_predecessors, c@));
            c
        } else {
            self.active.duplicate()
        };
        assert(harden_start(*self, add_predecessors, a1@));
        let mut kg = Group::from_set(keep);
        let mut na = a1.harden(&kg);
        let mut np = self.passive.harden(&kg);
        let ghost mut rounds: nat = 0;
        assert(harden_reached(a1@, self.passive@, keep@, kg@.to_set(), rounds));
        loop
            invariant
                harden_reached(a1@, self.passive@, keep@, kg@.to_set(), rounds),
                a1.wf(),
                self.passive.wf(),
                na.wf(), np.wf(), kg.wf(),
                a1.degree == self.active.degree,
                na.degree == self.active.degree,
                np.degree == self.passive.degree,
                kg@.to_set().subset_of(keep@),
                restricted_to(a1@, self.passive@, kg, na@, np@),
            ensures
                na.wf(), np.wf(), kg.wf(),
                na.degree == self.active.degree,
                np.degree == self.passive.degree,
                kg@.to_set().subset_of(keep@),
                restricted_to(a1@, self.passive@, kg, na@, np@),
                labels_spec(na@) == kg@.to_set(),
                labels_spec(np@) == kg@.to_set(),
                harden_reached(a1@, self.passive@, keep@, kg@.to_set(), rounds),
            decreases kg@.len(),
        {
            let la = Group::from_set(&na.labels_appearing());
            let lp = Group::from_set(&np.labels_appearing());
            let nk = la.intersection(&lp);
            proof {
                lemma_harden_within(kg, a1@, na@);
                lemma_harden_within(kg, self.passive@, np@);
            }
            if nk.same_as(&kg) {
                proof {
                    assert(labels_spec(na@) =~= kg@.to_set());
                    assert(labels_spec(np@) =~= kg@.to_set());
                }
                break;
            }
            proof {
                let a = nk@.to_set();
                let b = kg@.to_set();
                assert(a.subset_of(b));
                if a == b {
                    crate::normalize::lemma_sorted_same_set(nk@, kg@);
                }
                assert(a != b);
                assert(!(a =~= b));
                let x = choose|x: Label| !(a.contains(x) <==> b.contains(x));
                assert(b.contains(x) && !a.contains(x));
                lemma_sorted_len(nk@);
                lemma_sorted_len(kg@);
                vstd::seq_lib::seq_to_set_is_finite(kg@);
                a.lemma_subset_not_in_lt(b, x);
            }
            proof {
                let prev = kg@.to_set();
                assert(restricted_to(a1@, self.passive@, kg, na@, np@));
                assert(nk@.to_set() == labels_spec(na@).intersect(labels_spec(np@)));
                assert(harden_round(a1@, self.passive@, prev, nk@.to_set()));
                assert(harden_reached(a1@, self.passive@, keep@, prev, rounds));
                assert(harden_reached(a1@, self.passive@, keep@, nk@.to_set(), rounds + 1));
                rounds = rounds + 1;
            }
            kg = nk;
            na = a1.harden(&kg);
            np = self.passive.harden(&kg);
        }
        let text = keep_texts(&self.mapping_label_text, &kg);
        let oldlabels = match &self.mapping_label_oldlabels {
            Some(v) => Some(keep_sets(v, &kg)),
            None => None,
        };
        let r = Problem {
            active: na,
            passive: np,
            passive_gen: None,
            mapping_label_text: text,
            mapping_label_oldlabels: oldlabels,
            mapping_oldlabel_labels: crate::problem::copy_opt_label_sets(&self.mapping_oldlabel_labels),
            mapping_oldlabel_text: crate::problem::copy_opt_label_texts(&self.mapping_oldlabel_text),
            trivial_sets: None,
            coloring_sets: None,
            diagram_indirect: None,
            diagram_indirect_old: crate::problem::copy_opt_pairs(&self.diagram_indirect_old),
            diagram_direct: None,
            orientation_given: self.orientation_given,
            orientation_trivial_sets: None,
            orientation_coloring_sets: None,
            fixpoint_procedure_works: None,
            marks_works: None,
            demisifiable: None,
            is_trivial_with_input: None,
            triviality_with_input: None,
            expressions: None,
        };
        assert(restricted_to(a1@, self.passive@, kg, r.active@, r.passive@));
        assert(harden_reached(a1@, self.passive@, keep@, kg@.to_set(), rounds));
        r
    }

    /// Removes `label` from the problem: keeps all its other labels.
    pub fn harden_remove(&self, label: Label, add_predecessors: bool) -> (r: Problem)
        requires
            self.active.wf(),
            self.passive.wf(),
            add_predecessors ==> self.diagram_indirect is Some
                && has_predecessors(self.diagram_indirect->Some_0@, self.active@),
        ensures
            hardened(*self, labels_spec(self.active@).union(labels_spec(self.passive@)).remove(label), add_predecessors, r),
    {
        let ls = self.labels();
        let mut h: HashSet<Label> = HashSet::new();
        let mut i: usize = 0;
        while i < ls.len()
            invariant
                i <= ls@.len(),
                h@ == ls@.subrange(0, i as int).to_set().remove(label),
            decreases ls@.len() - i,
        {
            if ls[i] != label {
                h.insert(ls[i]);
            }
            i += 1;
            assert(h@ =~= ls@.subrange(0, i as int).to_set().remove(label)) by {
                assert(ls@.subrange(0, i as int) =~= ls@.subrange(0, i - 1).push(ls@[i - 1]));
                ls@.subrange(0, i - 1).lemma_push_to_set_commute(ls@[i - 1]);
            }
        }
        assert(ls@.subrange(0, ls@.len() as int) =~= ls@);
        self.harden_keep(&h, add_predecessors)
    }
}

} // verus!
