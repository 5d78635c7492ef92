use vstd::prelude::*;

use crate::constraint::{constraint_includes, lines_view, Constraint};
use crate::coloring::{allows_pair, pair_line};
use crate::edit::{edited_lines, EditOp};
use crate::group::{copy_labels, Group, GroupType, Label};
use crate::line::{count_of, degree_spec, has_star_spec, parts_wf, Degree, Line, PartV};
use crate::maximize::{line_if_fits, no_zero};
use crate::order::parts_view;
use crate::choices::{choice_sets, line_groups, minimal_sets};
use crate::line::normalized_from;
use crate::orientation::{incoming_parts, outgoing_parts, capped, group_pairs_view, split_covered, split_pair, splits_complete, splits_ok};
use crate::pairing::{total, within};
use crate::part::Part;
use crate::problem::Problem;

verus! {

/// Some split of the line with `n` outgoing occurrences has its two sides
/// allowed on an edge.
pub open spec fn some_split_allowed(c: Constraint, line: Seq<PartV>, n: usize) -> bool {
    exists|out: Seq<Label>, inc: Seq<Label>| crate::group::strictly_sorted(out) && crate::group::strictly_sorted(inc)
        && #[trigger] split_pair(seq![line], n, out, inc)
        && constraint_includes(c, pair_line(out, inc))
}

/// A list of splits that holds only splits and covers all of them finds an
/// allowed split exactly when there is one.
pub proof fn lemma_complete_splits_decide(c: Constraint, sp: Seq<(Seq<Label>, Seq<Label>)>, line: Seq<PartV>, n: usize)
    requires
        splits_ok(sp, seq![line], n),
        splits_complete(sp, seq![line], n),
    ensures
        (exists|k: int| 0 <= k < sp.len() && constraint_includes(c, pair_line(#[trigger] sp[k].0, sp[k].1)))
            <==> some_split_allowed(c, line, n),
{
    let ls = seq![line];
    if exists|k: int| 0 <= k < sp.len() && constraint_includes(c, pair_line(#[trigger] sp[k].0, sp[k].1)) {
        let k = choose|k: int| 0 <= k < sp.len() && constraint_includes(c, pair_line(#[trigger] sp[k].0, sp[k].1));
        assert(split_pair(ls, n, sp[k].0, sp[k].1));
    }
    if some_split_allowed(c, line, n) {
        let (out, inc) = choose|out: Seq<Label>, inc: Seq<Label>| crate::group::strictly_sorted(out) && crate::group::strictly_sorted(inc)
            && #[trigger] split_pair(seq![line], n, out, inc)
            && constraint_includes(c, pair_line(out, inc));
        let (k, cc, ro, ri) = choose|k: int, cc: Seq<usize>, ro: Seq<PartV>, ri: Seq<PartV>|
            #![trigger normalized_from(ro, outgoing_parts(ls[k], cc)), normalized_from(ri, incoming_parts(ls[k], cc))]
            0 <= k < ls.len() && within(cc, capped(ls[k], n)) && total(cc) == n
            && normalized_from(ro, outgoing_parts(ls[k], cc))
            && normalized_from(ri, incoming_parts(ls[k], cc))
            && minimal_sets(choice_sets(line_groups(ro))).contains(out.to_set())
            && minimal_sets(choice_sets(line_groups(ri))).contains(inc.to_set());
        assert(k == 0);
        assert(split_covered(sp, ls[k], cc));
        let (ro2, ri2) = choose|ro2: Seq<PartV>, ri2: Seq<PartV>|
            #![trigger normalized_from(ro2, outgoing_parts(line, cc)), normalized_from(ri2, incoming_parts(line, cc))]
            normalized_from(ro2, outgoing_parts(line, cc))
            && normalized_from(ri2, incoming_parts(line, cc))
            && forall|o2: Seq<Label>, i2: Seq<Label>|
                #![trigger minimal_sets(choice_sets(line_groups(ro2))).contains(o2.to_set()), minimal_sets(choice_sets(line_groups(ri2))).contains(i2.to_set())]
                crate::group::strictly_sorted(o2) && crate::group::strictly_sorted(i2)
                && minimal_sets(choice_sets(line_groups(ro2))).contains(o2.to_set())
                && minimal_sets(choice_sets(line_groups(ri2))).contains(i2.to_set())
                ==> sp.contains((o2, i2));
        crate::edit::lemma_normal_form_unique(ro, ro2, outgoing_parts(line, cc));
        crate::edit::lemma_normal_form_unique(ri, ri2, incoming_parts(line, cc));
        assert(minimal_sets(choice_sets(line_groups(ro2))).contains(out.to_set()));
        assert(minimal_sets(choice_sets(line_groups(ri2))).contains(inc.to_set()));
        assert(sp.contains((out, inc)));
        let k2 = choose|k2: int| 0 <= k2 < sp.len() && sp[k2] == (out, inc);
        assert(constraint_includes(c, pair_line(sp[k2].0, sp[k2].1)));
    }
}

/// The line `ps` with one occurrence of part `i`, which holds `l1`, replaced
/// by `l2`: a part occurring once gets the group of `l2`; otherwise one
/// occurrence of `l2` is added, and a part with an exponent loses one.
pub open spec fn predecessor_test(ps: Seq<PartV>, i: int, l2: Label) -> Seq<PartV> {
    match ps[i].0 {
        GroupType::Many(x) => if x == 1 {
            ps.update(i, (GroupType::Many(1), seq![l2]))
        } else {
            ps.update(i, (GroupType::Many((x - 1) as u8), ps[i].1)).push((GroupType::Many(1), seq![l2]))
        },
        GroupType::Star => ps.push((GroupType::Many(1), seq![l2])),
    }
}

/// How many times the part `p` holds the group `g`.
pub open spec fn part_count(p: PartV, g: Seq<Label>) -> nat {
    match p.0 {
        GroupType::Many(n) => if p.1 == g { n as nat } else { 0 },
        GroupType::Star => 0,
    }
}

proof fn lemma_count_concat(a: Seq<PartV>, b: Seq<PartV>, g: Seq<Label>)
    ensures
        count_of(a + b, g) == count_of(a, g) + count_of(b, g),
    decreases b.len(),
{
    if b.len() == 0 {
        assert(a + b =~= a);
    } else {
        lemma_count_concat(a, b.drop_last(), g);
        assert((a + b).drop_last() =~= a + b.drop_last());
        assert((a + b).last() == b.last());
    }
}

proof fn lemma_count_single(p: PartV, g: Seq<Label>)
    ensures
        count_of(seq![p], g) == part_count(p, g),
{
    assert(seq![p].drop_last() =~= Seq::<PartV>::empty());
    assert(count_of(Seq::<PartV>::empty(), g) == 0);
    assert(seq![p].last() == p);
}

proof fn lemma_count_update(s: Seq<PartV>, k: int, x: PartV, g: Seq<Label>)
    requires
        0 <= k < s.len(),
    ensures
        count_of(s.update(k, x), g) + part_count(s[k], g) == count_of(s, g) + part_count(x, g),
{
    let a = s.subrange(0, k);
    let b = s.subrange(k + 1, s.len() as int);
    assert(s =~= a + seq![s[k]] + b);
    assert(s.update(k, x) =~= a + seq![x] + b);
    lemma_count_concat(a + seq![s[k]], b, g);
    lemma_count_concat(a, seq![s[k]], g);
    lemma_count_concat(a + seq![x], b, g);
    lemma_count_concat(a, seq![x], g);
    lemma_count_single(s[k], g);
    lemma_count_single(x, g);
}

proof fn lemma_count_push_one(s: Seq<PartV>, p: PartV, g: Seq<Label>)
    ensures
        count_of(s.push(p), g) == count_of(s, g) + part_count(p, g),
{
    assert(s.push(p).drop_last() =~= s);
}

pub proof fn lemma_star_update(s: Seq<PartV>, k: int, x: PartV)
    requires
        0 <= k < s.len(),
        s[k].0 != GroupType::Star,
        x.0 != GroupType::Star,
    ensures
        has_star_spec(s.update(k, x)) == has_star_spec(s),
{
    if has_star_spec(s) {
        let j = choose|j: int| 0 <= j < s.len() && (#[trigger] s[j]).0 == GroupType::Star;
        assert(s.update(k, x)[j] == s[j]);
    }
    if has_star_spec(s.update(k, x)) {
        let j = choose|j: int| 0 <= j < s.len() && (#[trigger] s.update(k, x)[j]).0 == GroupType::Star;
        assert(s[j] == s.update(k, x)[j]);
    }
}

/// Testing whether `l2` can stand for a label of part `i` keeps the degree
/// of the line. For a part with an exponent, one occurrence of its group is
/// traded for one occurrence of the group `{l2}`, every other group keeping
/// its count; for a starred part, one occurrence of `{l2}` is added and
/// nothing else changes.
pub proof fn law_predecessor_test_trades_one_occurrence(ps: Seq<PartV>, i: int, l2: Label)
    requires
        0 <= i < ps.len(),
        ps[i].0 != GroupType::Many(0),
    ensures
        degree_spec(predecessor_test(ps, i, l2)) == degree_spec(ps),
        ps[i].0 != GroupType::Star ==> forall|g: Seq<Label>|
            #[trigger] count_of(predecessor_test(ps, i, l2), g) + (if g == ps[i].1 { 1nat } else { 0nat })
                == count_of(ps, g) + (if g == seq![l2] { 1nat } else { 0nat }),
        ps[i].0 == GroupType::Star ==> forall|g: Seq<Label>|
            #[trigger] count_of(predecessor_test(ps, i, l2), g)
                == count_of(ps, g) + (if g == seq![l2] { 1nat } else { 0nat }),
        ps[i].0 == GroupType::Star ==> has_star_spec(predecessor_test(ps, i, l2)),
{
    let t = predecessor_test(ps, i, l2);
    let one = (GroupType::Many(1), seq![l2]);
    match ps[i].0 {
        GroupType::Many(x) => {
            if x == 1 {
                crate::normalize::lemma_degree_update(ps, i, one);
                lemma_star_update(ps, i, one);
                assert forall|g: Seq<Label>| #[trigger] count_of(t, g) + (if g == ps[i].1 { 1nat } else { 0nat })
                    == count_of(ps, g) + (if g == seq![l2] { 1nat } else { 0nat }) by {
                    lemma_count_update(ps, i, one, g);
                }
            } else {
                let u = ps.update(i, (GroupType::Many((x - 1) as u8), ps[i].1));
                crate::normalize::lemma_degree_update(ps, i, (GroupType::Many((x - 1) as u8), ps[i].1));
                lemma_star_update(ps, i, (GroupType::Many((x - 1) as u8), ps[i].1));
                crate::line::lemma_has_star_push(u, one);
                assert(t.drop_last() =~= u);
                assert forall|g: Seq<Label>| #[trigger] count_of(t, g) + (if g == ps[i].1 { 1nat } else { 0nat })
                    == count_of(ps, g) + (if g == seq![l2] { 1nat } else { 0nat }) by {
                    lemma_count_update(ps, i, (GroupType::Many((x - 1) as u8), ps[i].1), g);
                    lemma_count_push_one(u, one, g);
                }
            }
        },
        GroupType::Star => {
            crate::line::lemma_has_star_push(ps, one);
            assert(ps[i].0 == GroupType::Star);
            assert forall|g: Seq<Label>| #[trigger] count_of(t, g)
                == count_of(ps, g) + (if g == seq![l2] { 1nat } else { 0nat }) by {
                lemma_count_push_one(ps, one, g);
            }
        },
    }
}

/// The line `line` with one occurrence of its part `i` replaced by `l2`.
fn predecessor_line(line: &Line, i: usize, l2: Label) -> (r: Option<Line>)
    requires
        line.wf(),
        i < line@.len(),
        line@[i as int].0 != GroupType::Many(0),
    ensures
        r matches Some(t) ==> t.wf() && t@ == predecessor_test(line@, i as int, l2),
        r matches Some(t) ==> degree_spec(t@) == degree_spec(line@),
        r is None ==> !parts_wf(predecessor_test(line@, i as int, l2)),
{
    proof {
        law_predecessor_test_trades_one_occurrence(line@, i as int, l2);
    }
    let mut one: Vec<Label> = Vec::new();
    one.push(l2);
    let single = Group(one);
    assert(single@ =~= seq![l2]);
    let mut parts = crate::line::copy_parts(&line.parts);
    let ghost ps = line@;
    assert(parts_view(parts@) == ps);
    match line.parts[i].gtype {
        GroupType::Many(x) => {
            if x == 1 {
                parts.set(i, Part { gtype: GroupType::Many(1), group: single });
                assert(parts_view(parts@) =~= ps.update(i as int, (GroupType::Many(1), seq![l2])));
            } else {
                let g = line.parts[i].group.duplicate();
                parts.set(i, Part { gtype: GroupType::Many(x - 1), group: g });
                parts.push(Part { gtype: GroupType::Many(1), group: single });
                assert(parts_view(parts@) =~= ps.update(i as int, (GroupType::Many((x - 1) as u8), ps[i as int].1)).push((GroupType::Many(1), seq![l2])));
            }
        },
        GroupType::Star => {
            parts.push(Part { gtype: GroupType::Many(1), group: single });
            assert(parts_view(parts@) =~= ps.push((GroupType::Many(1), seq![l2])));
        },
    }
    let ghost pv = parts_view(parts@);
    assert(pv == predecessor_test(ps, i as int, l2));
    proof {
        assert(crate::group::strictly_sorted(seq![l2]));
        assert forall|q: int| 0 <= q < parts@.len() implies crate::group::strictly_sorted(#[trigger] parts@[q].group@) by {
            assert(pv[q] == parts@[q]@);
            if q < ps.len() && q != i {
                assert(pv[q] == ps[q]);
                assert(crate::group::strictly_sorted(ps[q].1));
            } else if q == i {
                assert(crate::group::strictly_sorted(ps[q].1));
            }
        }
    }
    line_if_fits(parts)
}

impl Constraint {
    /// Whether `l2` can stand wherever `l1` stands: for every part holding
    /// `l1`, the line with one occurrence of that part replaced by `l2` is
    /// well formed and allowed by the constraint.
    pub fn is_diagram_predecessor(&self, l1: Label, l2: Label) -> (r: bool)
        requires
            self.wf(),
            forall|k: int| 0 <= k < self@.len() ==> no_zero(#[trigger] self@[k]),
        ensures
            r == forall|k: int, i: int| 0 <= k < self@.len() && 0 <= i < self@[k].len() && (#[trigger] self@[k][i]).1.contains(l1)
                ==> parts_wf(predecessor_test(self@[k], i, l2))
                    && degree_spec(predecessor_test(self@[k], i, l2)) == self.degree
                    && constraint_includes(*self, predecessor_test(self@[k], i, l2)),
    {
        let mut k: usize = 0;
        while k < self.lines.len()
            invariant
                self.wf(),
                forall|k: int| 0 <= k < self@.len() ==> no_zero(#[trigger] self@[k]),
                k <= self@.len(),
                forall|a: int, i: int| 0 <= a < k && 0 <= i < self@[a].len() && (#[trigger] self@[a][i]).1.contains(l1)
                    ==> parts_wf(predecessor_test(self@[a], i, l2))
                        && degree_spec(predecessor_test(self@[a], i, l2)) == self.degree
                        && constraint_includes(*self, predecessor_test(self@[a], i, l2)),
            decreases self@.len() - k,
        {
            let line = &self.lines[k];
            assert(line@ == self@[k as int]);
            assert(line.wf());
            let mut i: usize = 0;
            while i < line.parts.len()
                invariant
                    self.wf(),
                    line@ == self@[k as int],
                    line.wf(),
                    no_zero(line@),
                    k < self@.len(),
                    i <= line@.len(),
                    forall|a: int, q: int| 0 <= a < k && 0 <= q < self@[a].len() && (#[trigger] self@[a][q]).1.contains(l1)
                        ==> parts_wf(predecessor_test(self@[a], q, l2))
                            && degree_spec(predecessor_test(self@[a], q, l2)) == self.degree
                            && constraint_includes(*self, predecessor_test(self@[a], q, l2)),
                    forall|q: int| 0 <= q < i && (#[trigger] line@[q]).1.contains(l1)
                        ==> parts_wf(predecessor_test(line@, q, l2))
                            && degree_spec(predecessor_test(line@, q, l2)) == self.degree
                            && constraint_includes(*self, predecessor_test(line@, q, l2)),
                decreases line@.len() - i,
            {
                assert(line.parts@[i as int]@ == line@[i as int]);
                if line.parts[i].group.contains(l1) {
                    assert(line@[i as int].0 != GroupType::Many(0));
                    match predecessor_line(line, i, l2) {
                        Some(t) => {
                            if t.degree() != self.degree {
                                assert(self@[k as int][i as int] == line@[i as int]);
                                return false;
                            }
                            proof {
                                crate::constraint::lemma_same_degree_defined(*self, t@);
                            }
                            if !self.includes(&t) {
                                assert(self@[k as int][i as int] == line@[i as int]);
                                return false;
                            }
                        },
                        None => {
                            assert(self@[k as int][i as int] == line@[i as int]);
                            return false;
                        },
                    }
                }
                i += 1;
            }
            k += 1;
        }
        true
    }
}

/// `n` is `o` with the generated passive constraint computed: none when some
/// label of the direct diagram stands for several labels, otherwise the
/// passive constraint with each group reduced to its generators.
pub open spec fn passive_gen_computed(o: Problem, n: Problem) -> bool {
    &&& n == (Problem { passive_gen: n.passive_gen, ..o })
    &&& (o.diagram_direct is Some && exists|k: int| 0 <= k < o.diagram_direct->Some_0.0@.len()
        && (#[trigger] o.diagram_direct->Some_0.0@[k]).1@.len() > 1) ==> n.passive_gen is None
    &&& !(o.diagram_direct is Some && exists|k: int| 0 <= k < o.diagram_direct->Some_0.0@.len()
        && (#[trigger] o.diagram_direct->Some_0.0@[k]).1@.len() > 1) ==> {
        &&& n.passive_gen matches Some(pg)
        &&& pg.wf()
        &&& exists|pairs: Vec<(Label, Label)>| #[trigger] pairs@ == o.diagram_indirect->Some_0@
            && edited_lines(EditOp::Generators { pairs }, o.passive@, pg@)
    }
}

impl Problem {
    /// Replaces each label of the active groups by the labels that reach it
    /// in the diagram.
    pub fn add_active_predecessors(&mut self)
        requires
            old(self).active.wf(),
            old(self).diagram_indirect is Some,
        ensures
            final(self).active.wf(),
            final(self).active.degree == old(self).active.degree,
            exists|pairs: Vec<(Label, Label)>| #[trigger] pairs@ == old(self).diagram_indirect->Some_0@
                && edited_lines(EditOp::AddPredecessors { pairs }, old(self).active@, final(self).active@),
            final(self).passive == old(self).passive,
            *final(self) == (Problem { active: final(self).active, ..*old(self) }),
    {
        let pairs = match &self.diagram_indirect {
            Some(d) => copy_label_pairs(d),
            None => Vec::new(),
        };
        let ghost gp = pairs;
        let op = EditOp::AddPredecessors { pairs };
        self.active = self.active.edit_constraint(&op);
        assert(gp@ == self.diagram_indirect->Some_0@);
    }

    /// Keeps, as the generated passive constraint, the passive constraint
    /// with each group reduced to its generators (the labels that no other
    /// label of the group reaches in the diagram), unless some label of the
    /// direct diagram stands for several labels.
    pub fn compute_passive_gen(&mut self)
        requires
            old(self).passive.wf(),
            old(self).diagram_indirect is Some,
        ensures
            passive_gen_computed(*old(self), *final(self)),
    {
        self.passive_gen = None;
        if !self.is_mergeable() {
            let pairs = match &self.diagram_indirect {
                Some(d) => copy_label_pairs(d),
                None => Vec::new(),
            };
            let ghost gp = pairs;
            let op = EditOp::Generators { pairs };
            let pg = self.passive.edit_constraint(&op);
            self.passive_gen = Some(pg);
            assert(gp@ == self.diagram_indirect->Some_0@);
        }
    }

    /// Whether a line of single labels can be solved without communication:
    /// the passive constraint allows the set of its labels on every edge.
    pub fn is_line_trivial(&self, line: &Line) -> (r: bool)
        requires
            self.passive.wf(),
            self.passive.degree is Finite,
            self.passive.degree->Finite_0 <= 255,
            line.wf(),
            forall|i: int| 0 <= i < line@.len() ==> (#[trigger] line@[i]).1.len() == 1,
        ensures
            r == constraint_includes(self.passive, seq![(GroupType::Many(self.passive.degree->Finite_0 as u8),
                sorted_of_groups(line@))]),
    {
        let mut all: Vec<Label> = Vec::new();
        let mut i: usize = 0;
        while i < line.parts.len()
            invariant
                i <= line@.len(),
                all@.to_set() == labels_of_groups(line@.subrange(0, i as int)),
            decreases line@.len() - i,
        {
            let g = &line.parts[i].group;
            assert(g@ == line@[i as int].1);
            let ghost before = all@;
            let mut j: usize = 0;
            while j < g.0.len()
                invariant
                    j <= g@.len(),
                    all@ == before + g@.subrange(0, j as int),
                decreases g@.len() - j,
            {
                all.push(g.0[j]);
                j += 1;
                assert(all@ =~= before + g@.subrange(0, j as int));
            }
            proof {
                assert(g@.subrange(0, g@.len() as int) =~= g@);
                crate::group::lemma_concat_to_set(before, g@);
                let a = line@.subrange(0, i as int);
                let b = line@.subrange(0, i + 1);
                assert forall|l: Label| labels_of_groups(b).contains(l) <==> all@.to_set().contains(l) by {
                    if labels_of_groups(b).contains(l) {
                        let q = choose|q: int| 0 <= q < b.len() && (#[trigger] b[q]).1.contains(l);
                        if q < i {
                            assert(a[q] == b[q]);
                            assert(labels_of_groups(a).contains(l));
                        } else {
                            assert(b[q] == line@[i as int]);
                            assert(g@.to_set().contains(l));
                        }
                    }
                    if all@.to_set().contains(l) {
                        if before.to_set().contains(l) {
                            let q = choose|q: int| 0 <= q < a.len() && (#[trigger] a[q]).1.contains(l);
                            assert(b[q] == a[q]);
                        } else {
                            assert(g@.to_set().contains(l));
                            assert(b[i as int] == line@[i as int]);
                            assert(b[i as int].1.contains(l));
                        }
                    }
                }
                assert(labels_of_groups(b) =~= all@.to_set());
            }
            i += 1;
        }
        assert(line@.subrange(0, line@.len() as int) =~= line@);
        let group = Group::from_labels(&all);
        proof {
            crate::edit::lemma_sorted_of(group@);
        }
        let d = match self.passive.degree {
            Degree::Finite(d) => d,
            Degree::Star => 0,
        };
        let t = Line { parts: vec![Part { gtype: GroupType::Many(d as u8), group }] };
        proof {
            assert(t@ =~= seq![(GroupType::Many(d as u8), group@)]);
            crate::normalize::lemma_degree_single((GroupType::Many(d as u8), group@));
            assert(crate::group::strictly_sorted(t@[0].1));
            assert(!crate::line::has_star_spec(t@)) by {
                if crate::line::has_star_spec(t@) {
                    let q = choose|q: int| 0 <= q < t@.len() && (#[trigger] t@[q]).0 == GroupType::Star;
                }
            }
        }
        proof {
            crate::constraint::lemma_same_degree_defined(self.passive, t@);
        }
        self.passive.includes(&t)
    }

    /// Whether a line of single labels can be solved without communication
    /// when every node has `outdegree` outgoing edges: some split of the line
    /// has its two sides allowed on one edge.
    pub fn is_line_trivial_with_given_orientation(&self, line: &Line, outdegree: usize) -> (r: bool)
        requires
            self.passive.wf(),
            self.passive.degree == Degree::Finite(2),
            line.wf(),
            outdegree <= 255,
        ensures
            exists|sp: Seq<(Seq<Label>, Seq<Label>)>| #[trigger] splits_ok(sp, seq![line@], outdegree)
                && splits_complete(sp, seq![line@], outdegree)
                && (r <==> exists|k: int| 0 <= k < sp.len() && constraint_includes(self.passive, pair_line(#[trigger] sp[k].0, sp[k].1))),
            r <==> some_split_allowed(self.passive, line@, outdegree),
    {
        let splits = line.minimal_splits(outdegree);
        let ghost sp = group_pairs_view(splits@);
        let mut i: usize = 0;
        while i < splits.len()
            invariant
                i <= splits@.len(),
                sp == group_pairs_view(splits@),
                splits_complete(sp, seq![line@], outdegree),
                splits_ok(sp, seq![line@], outdegree),
                forall|q: int| 0 <= q < splits@.len() ==> (#[trigger] splits@[q]).0.wf() && splits@[q].1.wf(),
                self.passive.wf(),
                self.passive.degree == Degree::Finite(2),
                forall|q: int| 0 <= q < i ==> !constraint_includes(self.passive, pair_line(#[trigger] sp[q].0, sp[q].1)),
                splits_ok(sp, seq![line@], outdegree),
            decreases splits@.len() - i,
        {
            assert(splits@[i as int].0.wf() && splits@[i as int].1.wf());
            assert(sp[i as int] == (splits@[i as int].0@, splits@[i as int].1@));
            if allows_pair(&self.passive, &splits[i].0.0, &splits[i].1.0) {
                assert(constraint_includes(self.passive, pair_line(sp[i as int].0, sp[i as int].1)));
                proof {
                    lemma_complete_splits_decide(self.passive, sp, line@, outdegree);
                }
                return true;
            }
            i += 1;
        }
        proof {
            lemma_complete_splits_decide(self.passive, sp, line@, outdegree);
        }
        false
    }

    /// Whether a line of single labels can be solved without communication,
    /// also when an orientation is given with the problem.
    pub fn is_line_trivial_with_assumed_input(&self, line: &Line) -> (r: bool)
        requires
            self.passive.wf(),
            self.passive.degree == Degree::Finite(2),
            line.wf(),
            forall|i: int| 0 <= i < line@.len() ==> (#[trigger] line@[i]).1.len() == 1,
            self.orientation_given matches Some(o) ==> o <= 255,
        ensures
            exists|sp: Seq<(Seq<Label>, Seq<Label>)>|
                #[trigger] splits_ok(sp, seq![line@], given_outdegree(self.orientation_given))
                && (r <==> (constraint_includes(self.passive, seq![(GroupType::Many(2), sorted_of_groups(line@))])
                    || (self.orientation_given is Some && exists|k: int| 0 <= k < sp.len()
                        && constraint_includes(self.passive, pair_line(#[trigger] sp[k].0, sp[k].1))))),
            r <==> (constraint_includes(self.passive, seq![(GroupType::Many(2), sorted_of_groups(line@))])
                || (self.orientation_given matches Some(o) && some_split_allowed(self.passive, line@, o))),
    {
        let ghost o = given_outdegree(self.orientation_given);
        let ghost empty = Seq::<(Seq<Label>, Seq<Label>)>::empty();
        proof {
            assert(splits_ok(empty, seq![line@], o));
        }
        if self.is_line_trivial(line) {
            assert(splits_ok(empty, seq![line@], o));
            return true;
        }
        match self.orientation_given {
            Some(out) => {
                let r = self.is_line_trivial_with_given_orientation(line, out);
                proof {
                    let sp0 = choose|sp: Seq<(Seq<Label>, Seq<Label>)>| #[trigger] splits_ok(sp, seq![line@], out)
                        && (r <==> exists|k: int| 0 <= k < sp.len() && constraint_includes(self.passive, pair_line(#[trigger] sp[k].0, sp[k].1)));
                    assert(o == out);
                    assert(splits_ok(sp0, seq![line@], o));
                }
                r
            },
            None => {
                assert(splits_ok(empty, seq![line@], o));
                false
            },
        }
    }
}

/// The given outdegree, or zero.
pub open spec fn given_outdegree(o: Option<usize>) -> usize {
    match o {
        Some(x) => x,
        None => 0,
    }
}

/// A copy of a list of pairs of labels.
fn copy_label_pairs(d: &Vec<(Label, Label)>) -> (r: Vec<(Label, Label)>)
    ensures
        r@ == d@,
{
    let mut pairs: Vec<(Label, Label)> = Vec::new();
    let mut i: usize = 0;
    while i < d.len()
        invariant
            i <= d@.len(),
            pairs@ == d@.subrange(0, i as int),
        decreases d@.len() - i,
    {
        pairs.push(d[i]);
        i += 1;
        assert(pairs@ =~= d@.subrange(0, i as int));
    }
    assert(d@.subrange(0, d@.len() as int) =~= d@);
    pairs
}

/// The labels of the groups of a line.
pub open spec fn labels_of_groups(ps: Seq<PartV>) -> Set<Label> {
    Set::new(|l: Label| exists|q: int| 0 <= q < ps.len() && (#[trigger] ps[q]).1.contains(l))
}

/// The labels of the groups of a line, in increasing order.
pub open spec fn sorted_of_groups(ps: Seq<PartV>) -> Seq<Label> {
    crate::edit::sorted_of(labels_of_groups(ps))
}

impl Line {
    /// The splits of the line into `outdegree` outgoing occurrences and the
    /// incoming rest, each pair of minimal choice sets once.
    pub fn minimal_splits(&self, outdegree: usize) -> (r: Vec<(Group, Group)>)
        requires
            self.wf(),
            outdegree <= 255,
        ensures
            forall|k: int| 0 <= k < r@.len() ==> (#[trigger] r@[k]).0.wf() && r@[k].1.wf(),
            splits_ok(group_pairs_view(r@), seq![self@], outdegree),
            splits_complete(group_pairs_view(r@), seq![self@], outdegree),
            forall|c: Seq<usize>| within(c, capped(self@, outdegree)) && total(c) == outdegree
                ==> #[trigger] split_covered(group_pairs_view(r@), self@, c),
    {
        let mut lines: Vec<Line> = Vec::new();
        lines.push(self.duplicate());
        let c = Constraint { lines, is_maximized: false, degree: self.degree() };
        proof {
            assert(c@ =~= seq![self@]);
            assert(crate::constraint::lines_wf(c.lines@, c.degree));
        }
        let r = c.minimal_splits(outdegree);
        proof {
            assert forall|cc: Seq<usize>| within(cc, capped(self@, outdegree)) && total(cc) == outdegree
                implies #[trigger] split_covered(group_pairs_view(r@), self@, cc) by {
                assert(seq![self@][0] == self@);
                assert(split_covered(group_pairs_view(r@), seq![self@][0], cc));
            }
        }
        r
    }
}

} // verus!
