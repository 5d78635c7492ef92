use vstd::prelude::*;

use crate::constraint::Constraint;
use crate::edit::{edited_lines, sorted_of, EditOp};
use crate::group::{Group, Label};
use crate::line::PartV;
use crate::problem::{copy_label_texts, copy_opt_label_sets, copy_opt_label_texts, copy_opt_pairs, label_sets_view, Problem};

verus! {

/// `r` keeps the label names and the history of `p`, and has nothing else
/// computed.
pub open spec fn keeps_names(p: Problem, r: Problem) -> bool {
    &&& r.mapping_label_text@ == p.mapping_label_text@
    &&& (r.mapping_label_oldlabels is Some <==> p.mapping_label_oldlabels is Some)
    &&& (r.mapping_label_oldlabels is Some ==> label_sets_view(r.mapping_label_oldlabels->Some_0@) == label_sets_view(p.mapping_label_oldlabels->Some_0@))
    &&& (r.mapping_oldlabel_labels is Some <==> p.mapping_oldlabel_labels is Some)
    &&& (r.mapping_oldlabel_labels is Some ==> label_sets_view(r.mapping_oldlabel_labels->Some_0@) == label_sets_view(p.mapping_oldlabel_labels->Some_0@))
    &&& (r.mapping_oldlabel_text is Some <==> p.mapping_oldlabel_text is Some)
    &&& (r.mapping_oldlabel_text is Some ==> r.mapping_oldlabel_text->Some_0@ == p.mapping_oldlabel_text->Some_0@)
    &&& (r.diagram_indirect_old is Some <==> p.diagram_indirect_old is Some)
    &&& (r.diagram_indirect_old is Some ==> r.diagram_indirect_old->Some_0@ == p.diagram_indirect_old->Some_0@)
    &&& r.orientation_given == p.orientation_given
    &&& r.passive_gen is None
    &&& r.trivial_sets is None
    &&& r.coloring_sets is None
    &&& r.diagram_indirect is None
    &&& r.diagram_direct is None
    &&& r.orientation_coloring_sets is None
    &&& r.orientation_trivial_sets is None
    &&& r.fixpoint_procedure_works is None
    &&& r.marks_works is None
    &&& r.demisifiable is None
    &&& r.is_trivial_with_input is None
    &&& r.triviality_with_input is None
    &&& r.expressions is None
}

/// The merges still to do after the merge of `from` into `to`: the later
/// merges name `to` where they named `from`.
pub open spec fn substitute(ms: Seq<(Label, Label)>, from: Label, to: Label) -> Seq<(Label, Label)> {
    ms.map_values(|m: (Label, Label)| (if m.0 == from { to } else { m.0 }, if m.1 == from { to } else { m.1 }))
}

/// `r` is what doing the merges `ms` one after the other on the lines `c`
/// gives.
pub open spec fn merges_done(c: Seq<Seq<PartV>>, ms: Seq<(Label, Label)>, r: Seq<Seq<PartV>>) -> bool
    decreases ms.len(),
{
    if ms.len() == 0 {
        r == c
    } else {
        let from = ms[0].0;
        let to = ms[0].1;
        if from == to {
            merges_done(c, ms.drop_first(), r)
        } else {
            exists|mid: Seq<Seq<PartV>>| #[trigger] edited_lines(EditOp::Relax { from, to, remove_from: true }, c, mid)
                && merges_done(mid, substitute(ms.drop_first(), from, to), r)
        }
    }
}

/// The labels that the pairs starting with `to` lead to, in order.
pub open spec fn successors_of(pairs: Seq<(Label, Label)>, to: Label) -> Seq<Label>
    decreases pairs.len(),
{
    if pairs.len() == 0 {
        Seq::empty()
    } else if pairs.last().0 == to {
        successors_of(pairs.drop_last(), to).push(pairs.last().1)
    } else {
        successors_of(pairs.drop_last(), to)
    }
}

/// `r` is what adding each label of `succ` in turn, where `from` occurs,
/// gives from the lines `c`.
pub open spec fn arrows_added(c: Seq<Seq<PartV>>, from: Label, succ: Seq<Label>, r: Seq<Seq<PartV>>) -> bool
    decreases succ.len(),
{
    if succ.len() == 0 {
        r == c
    } else {
        exists|mid: Seq<Seq<PartV>>| arrows_added(c, from, succ.drop_last(), mid)
            && #[trigger] edited_lines(EditOp::Relax { from, to: succ.last(), remove_from: false }, mid, r)
    }
}

proof fn lemma_arrow_step(c: Seq<Seq<PartV>>, from: Label, s: Seq<Label>, x: Label, mid: Seq<Seq<PartV>>, r: Seq<Seq<PartV>>)
    requires
        arrows_added(c, from, s, mid),
        edited_lines(EditOp::Relax { from, to: x, remove_from: false }, mid, r),
    ensures
        arrows_added(c, from, s.push(x), r),
{
    let t = s.push(x);
    assert(t.drop_last() =~= s);
    assert(t.last() == x);
    assert(arrows_added(c, from, t.drop_last(), mid));
    assert(edited_lines(EditOp::Relax { from, to: t.last(), remove_from: false }, mid, r));
    assert(t.len() > 0);
}

impl Problem {
    /// A problem with the given sides that keeps the label names and history
    /// of `self`.
    fn with_sides(&self, active: Constraint, passive: Constraint) -> (r: Problem)
        ensures
            keeps_names(*self, r),
            r.active == active,
            r.passive == passive,
    {
        Problem {
            active,
            passive,
            passive_gen: None,
            mapping_label_text: copy_label_texts(&self.mapping_label_text),
            mapping_label_oldlabels: copy_opt_label_sets(&self.mapping_label_oldlabels),
            mapping_oldlabel_labels: copy_opt_label_sets(&self.mapping_oldlabel_labels),
            mapping_oldlabel_text: copy_opt_label_texts(&self.mapping_oldlabel_text),
            trivial_sets: None,
            coloring_sets: None,
            diagram_indirect: None,
            diagram_indirect_old: copy_opt_pairs(&self.diagram_indirect_old),
            diagram_direct: None,
            orientation_given: self.orientation_given,
            orientation_trivial_sets: None,
            orientation_coloring_sets: None,
            fixpoint_procedure_works: None,
            marks_works: None,
            demisifiable: None,
            is_trivial_with_input: None,
            triviality_with_input: None,
            expressions: None,
        }
    }

    /// Merges the labels of `from` into `to` on both sides.
    pub fn relax_merge_group(&self, from: &Vec<Label>, to: Label) -> (r: Problem)
        requires
            self.active.wf(),
            self.passive.wf(),
        ensures
            keeps_names(*self, r),
            r.active.wf() && r.passive.wf(),
            r.active.degree == self.active.degree && r.passive.degree == self.passive.degree,
            exists|g: Group| g@ == sorted_of(from@.to_set())
                && #[trigger] edited_lines(EditOp::RelaxGroup { from: g, to, remove_from: true }, self.active@, r.active@)
                && edited_lines(EditOp::RelaxGroup { from: g, to, remove_from: true }, self.passive@, r.passive@),
    {
        let g = Group::from_labels(from);
        proof {
            crate::edit::lemma_sorted_of(g@);
        }
        let op = EditOp::RelaxGroup { from: g, to, remove_from: true };
        let active = self.active.edit_constraint(&op);
        let passive = self.passive.edit_constraint(&op);
        let r = self.with_sides(active, passive);
        proof {
            match op {
                EditOp::RelaxGroup { from: g2, .. } => {
                    assert(g2@ == sorted_of(from@.to_set()));
                    assert(edited_lines(EditOp::RelaxGroup { from: g2, to, remove_from: true }, self.active@, r.active@));
                },
                _ => {},
            }
        }
        r
    }

    /// Merges label `from` into label `to` on both sides.
    pub fn relax_merge(&self, from: Label, to: Label) -> (r: Problem)
        requires
            self.active.wf(),
            self.passive.wf(),
        ensures
            keeps_names(*self, r),
            r.active.wf() && r.passive.wf(),
            r.active.degree == self.active.degree && r.passive.degree == self.passive.degree,
            edited_lines(EditOp::Relax { from, to, remove_from: true }, self.active@, r.active@),
            edited_lines(EditOp::Relax { from, to, remove_from: true }, self.passive@, r.passive@),
    {
        let active = self.active.relax(from, to, true);
        let passive = self.passive.relax(from, to, true);
        self.with_sides(active, passive)
    }

    /// Does the merges one after the other; after merging `from` into `to`,
    /// the later merges name `to` where they named `from`.
    pub fn relax_many_merges(&self, merges: &Vec<(Label, Label)>) -> (r: Problem)
        requires
            self.active.wf(),
            self.passive.wf(),
        ensures
            keeps_names(*self, r),
            r.active.wf() && r.passive.wf(),
            r.active.degree == self.active.degree && r.passive.degree == self.passive.degree,
            merges_done(self.active@, merges@, r.active@),
            merges_done(self.passive@, merges@, r.passive@),
    {
        let mut active = self.active.duplicate();
        let mut passive = self.passive.duplicate();
        let mut pend: Vec<(Label, Label)> = Vec::new();
        let mut j: usize = 0;
        while j < merges.len()
            invariant
                j <= merges@.len(),
                pend@ == merges@.subrange(0, j as int),
            decreases merges@.len() - j,
        {
            pend.push(merges[j]);
            j += 1;
            assert(pend@ =~= merges@.subrange(0, j as int));
        }
        assert(merges@.subrange(0, merges@.len() as int) =~= merges@);
        let mut i: usize = 0;
        while i < pend.len()
            invariant
                i <= pend@.len(),
                active.wf(), passive.wf(),
                active.degree == self.active.degree,
                passive.degree == self.passive.degree,
                forall|rr: Seq<Seq<PartV>>| merges_done(active@, pend@.subrange(i as int, pend@.len() as int), rr) ==> merges_done(self.active@, merges@, rr),
                forall|rr: Seq<Seq<PartV>>| merges_done(passive@, pend@.subrange(i as int, pend@.len() as int), rr) ==> merges_done(self.passive@, merges@, rr),
            decreases pend@.len() - i,
        {
            let ghost rest = pend@.subrange(i as int, pend@.len() as int);
            let (from, to) = pend[i];
            assert(rest[0] == (from, to));
            if from != to {
                let na = active.relax(from, to, true);
                let np = passive.relax(from, to, true);
                let ghost old_pend = pend@;
                let mut k: usize = i + 1;
                while k < pend.len()
                    invariant
                        i + 1 <= k <= pend@.len(),
                        pend@.len() == old_pend.len(),
                        forall|q: int| 0 <= q < i + 1 ==> pend@[q] == old_pend[q],
                        forall|q: int| k <= q < pend@.len() ==> pend@[q] == old_pend[q],
                        forall|q: int| i + 1 <= q < k ==> pend@[q] == (
                            if old_pend[q].0 == from { to } else { old_pend[q].0 },
                            if old_pend[q].1 == from { to } else { old_pend[q].1 }),
                    decreases pend@.len() - k,
                {
                    let (a, b) = pend[k];
                    let na2 = if a == from { to } else { a };
                    let nb2 = if b == from { to } else { b };
                    pend.set(k, (na2, nb2));
                    k += 1;
                }
                proof {
                    let rest2 = pend@.subrange(i + 1, pend@.len() as int);
                    assert(rest2 =~= substitute(rest.drop_first(), from, to));
                    assert forall|rr: Seq<Seq<PartV>>| merges_done(na@, rest2, rr) implies merges_done(self.active@, merges@, rr) by {
                        assert(edited_lines(EditOp::Relax { from, to, remove_from: true }, active@, na@));
                        assert(merges_done(active@, rest, rr));
                    }
                    assert forall|rr: Seq<Seq<PartV>>| merges_done(np@, rest2, rr) implies merges_done(self.passive@, merges@, rr) by {
                        assert(edited_lines(EditOp::Relax { from, to, remove_from: true }, passive@, np@));
                        assert(merges_done(passive@, rest, rr));
                    }
                }
                active = na;
                passive = np;
            } else {
                proof {
                    assert(rest.drop_first() =~= pend@.subrange(i + 1, pend@.len() as int));
                }
            }
            i += 1;
        }
        proof {
            let e = pend@.subrange(i as int, pend@.len() as int);
            assert(e.len() == 0);
            assert(merges_done(active@, e, active@));
            assert(merges_done(passive@, e, passive@));
        }
        self.with_sides(active, passive)
    }

    /// Adds an arrow from `from` to `to` in the diagram: every label that
    /// `to` reaches in the diagram is added, one after the other, where `from`
    /// occurs on the passive side.
    pub fn relax_addarrow(&self, from: Label, to: Label) -> (r: Problem)
        requires
            self.active.wf(),
            self.passive.wf(),
            self.diagram_indirect is Some,
            exists|k: int| 0 <= k < self.diagram_indirect->Some_0@.len() && (#[trigger] self.diagram_indirect->Some_0@[k]).0 == to,
        ensures
            keeps_names(*self, r),
            r.active@ == self.active@,
            r.active.degree == self.active.degree,
            r.passive.wf(),
            r.passive.degree == self.passive.degree,
            arrows_added(self.passive@, from, successors_of(self.diagram_indirect->Some_0@, to), r.passive@),
    {
        let pairs = self.diagram_indirect.as_ref().unwrap();
        let mut passive = self.passive.duplicate();
        let mut i: usize = 0;
        assert(arrows_added(self.passive@, from, successors_of(pairs@.subrange(0, 0), to), passive@));
        while i < pairs.len()
            invariant
                self.passive.wf(),
                i <= pairs@.len(),
                pairs@ == self.diagram_indirect->Some_0@,
                passive.wf(),
                passive.degree == self.passive.degree,
                arrows_added(self.passive@, from, successors_of(pairs@.subrange(0, i as int), to), passive@),
            decreases pairs@.len() - i,
        {
            let ghost before = passive@;
            proof {
                let s = pairs@.subrange(0, i + 1);
                assert(s.drop_last() =~= pairs@.subrange(0, i as int));
                assert(s.last() == pairs@[i as int]);
            }
            if pairs[i].0 == to {
                passive = passive.relax(from, pairs[i].1, false);
                proof {
                    let sc = successors_of(pairs@.subrange(0, i + 1), to);
                    assert(sc.drop_last() == successors_of(pairs@.subrange(0, i as int), to));
                    assert(sc.last() == pairs@[i as int].1);
                    assert(arrows_added(self.passive@, from, sc.drop_last(), before));
                    lemma_arrow_step(self.passive@, from, sc.drop_last(), pairs@[i as int].1, before, passive@);
                    assert(sc == sc.drop_last().push(pairs@[i as int].1));
                }
            } else {
                proof {
                    assert(successors_of(pairs@.subrange(0, i + 1), to) == successors_of(pairs@.subrange(0, i as int), to));
                }
            }
            i += 1;
        }
        assert(pairs@.subrange(0, pairs@.len() as int) =~= pairs@);
        self.with_sides(self.active.duplicate(), passive)
    }
}

} // verus!
