use vstd::prelude::*;

use crate::choices::{all_choice_sets, distinct_sorted, lex_sorted, minimal_sets, sets_of, vecs_view};
use crate::constraint::{constraint_includes, Constraint};
use crate::group::{copy_labels, Group, GroupType, Label};
use crate::line::{degree_spec, Degree, Line, PartV};
use crate::part::Part;
use crate::problem::Problem;

verus! {

/// How often the single group of a line of degree `d` occurs.
pub open spec fn gtype_of_degree(d: Degree) -> GroupType {
    match d {
        Degree::Finite(x) => GroupType::Many(x as u8),
        Degree::Star => GroupType::Star,
    }
}

/// The sets of `sets`, in order, whose line of one group occurring `t`
/// times the constraint allows.
pub open spec fn allowed_sets(c: Constraint, t: GroupType, sets: Seq<Seq<Label>>) -> Seq<Seq<Label>>
    decreases sets.len(),
{
    if sets.len() == 0 {
        Seq::empty()
    } else {
        let p = allowed_sets(c, t, sets.drop_last());
        if constraint_includes(c, seq![(t, sets.last())]) {
            p.push(sets.last())
        } else {
            p
        }
    }
}

/// `ms` lists the minimal choice sets of the constraint, each as a strictly
/// increasing sequence, in increasing order.
pub open spec fn minimal_list(ms: Seq<Seq<Label>>, c: Seq<Seq<PartV>>) -> bool {
    &&& distinct_sorted(ms)
    &&& lex_sorted(ms)
    &&& sets_of(ms) == minimal_sets(all_choice_sets(c))
}

/// The minimal choice sets of `active` whose line of one group, occurring as
/// many times as the degree of `passive`, `passive` allows, in increasing
/// order.
pub fn allowed_minimal_sets(active: &Constraint, passive: &Constraint) -> (r: Vec<Vec<Label>>)
    requires
        active.wf(),
        passive.wf(),
    ensures
        exists|ms: Seq<Seq<Label>>| #[trigger] minimal_list(ms, active@)
            && vecs_view(r@) == allowed_sets(*passive, gtype_of_degree(passive.degree), ms),
{
    let t = match passive.degree {
        Degree::Finite(x) => GroupType::Many(#[verifier::truncate] (x as u8)),
        Degree::Star => GroupType::Star,
    };
    let sets = active.minimal_sets_of_all_choices();
    let ghost sv = vecs_view(sets@);
    assert(minimal_list(sv, active@));
    let mut r: Vec<Vec<Label>> = Vec::new();
    let mut i: usize = 0;
    while i < sets.len()
        invariant
            i <= sets@.len(),
            sv == vecs_view(sets@),
            passive.wf(),
            distinct_sorted(sv),
            vecs_view(r@) == allowed_sets(*passive, t, sv.subrange(0, i as int)),
            t == gtype_of_degree(passive.degree),
        decreases sets@.len() - i,
    {
        let x = copy_labels(&sets[i]);
        assert(x@ == sv[i as int]);
        assert(crate::group::strictly_sorted(sv[i as int]));
        let line = Line { parts: vec![Part { gtype: t, group: Group(x) }] };
        proof {
            assert(line@ =~= seq![(t, sv[i as int])]);
            assert(crate::group::strictly_sorted(line@[0].1));
            crate::normalize::lemma_degree_single((t, sv[i as int]));
            assert(line.wf());
        }
        proof {
            if passive.is_maximized || passive.degree != Degree::Finite(2) {
                assert forall|k: int| 0 <= k < passive@.len() implies crate::inclusion::star_capacity_fits(#[trigger] passive@[k], line@) by {
                    assert(passive.lines@[k].wf());
                    assert(degree_spec(passive.lines@[k]@) == passive.degree);
                    if crate::line::has_star_spec(line@) {
                        let q = choose|q: int| 0 <= q < line@.len() && (#[trigger] line@[q]).0 == GroupType::Star;
                        assert(t == GroupType::Star);
                        assert(passive.degree == Degree::Star);
                        if !crate::line::has_star_spec(passive@[k]) {
                            assert(degree_spec(passive@[k]) != Degree::Star);
                        }
                    }
                }
            }
        }
        let inc = passive.includes(&line);
        proof {
            let sub = sv.subrange(0, i + 1);
            assert(sub.drop_last() =~= sv.subrange(0, i as int));
            assert(sub.last() == sv[i as int]);
        }
        if inc {
            let ghost before = vecs_view(r@);
            r.push(copy_labels(&sets[i]));
            assert(vecs_view(r@) =~= before.push(sv[i as int]));
        }
        i += 1;
    }
    assert(sv.subrange(0, sv.len() as int) =~= sv);
    r
}

impl Problem {
    /// Finds the sets of labels that make the problem solvable without
    /// communication: the minimal sets of labels that a node can pick one
    /// from each group of some of its lines, such that the passive
    /// constraint allows every edge to carry labels of the set. The passive
    /// constraint is maximized first, unless its degree is two.
    pub fn compute_triviality(&mut self)
        requires
            old(self).trivial_sets is None,
            old(self).active.wf(),
            old(self).passive.wf(),
        ensures
            final(self).active == old(self).active,
            final(self).passive.wf(),
            final(self).passive.degree == old(self).passive.degree,
            old(self).passive.degree == Degree::Finite(2) ==> final(self).passive == old(self).passive,
            old(self).passive.degree != Degree::Finite(2) ==> crate::maximize::maximized_from(old(self).passive, final(self).passive),
            final(self).trivial_sets is Some,
            *final(self) == (Problem { passive: final(self).passive, trivial_sets: final(self).trivial_sets, ..*old(self) }),
            final(self).passive@.len() == 0 ==> final(self).trivial_sets->Some_0@.len() == 0,
            final(self).passive@.len() > 0 ==> exists|ms: Seq<Seq<Label>>| #[trigger] minimal_list(ms, old(self).active@)
                && vecs_view(final(self).trivial_sets->Some_0@)
                    == allowed_sets(final(self).passive, gtype_of_degree(final(self).passive.degree), ms),
    {
        if self.passive.degree != Degree::Finite(2) {
            self.passive.maximize();
        }
        if self.passive.lines.len() == 0 {
            self.trivial_sets = Some(Vec::new());
            return;
        }
        let sets = allowed_minimal_sets(&self.active, &self.passive);
        self.trivial_sets = Some(sets);
    }
}

} // verus!
