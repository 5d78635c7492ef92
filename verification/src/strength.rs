use vstd::prelude::*;
use std::collections::{HashMap, HashSet};

use crate::constraint::{labels_spec, lines_view, lines_wf, Constraint};
use crate::group::{Group, GroupType, Label};
use crate::line::{degree_spec, degree_without_star_spec, has_star_spec, parts_wf, Line, PartV};
use crate::order::{part_less, part_lt, parts_view};
use crate::part::Part;
use crate::problem::Problem;

verus! {

broadcast use {vstd::std_specs::hash::group_hash_axioms, vstd::seq_lib::group_to_multiset_ensures};

/// The order of parts as numbers: -1 below, 0 equal, 1 above.
pub open spec fn part_rank(a: PartV, b: PartV) -> int {
    if part_lt(a, b) { -1 } else if a == b { 0 } else { 1 }
}

/// Whether `a` reaches `b` in the reachability map.
pub open spec fn reach_has(reach: Map<Label, HashSet<Label>>, a: Label, b: Label) -> bool {
    reach[a]@.contains(b)
}

/// Compares two parts by strength: two parts of one label each are ordered by
/// the diagram when one label reaches the other but not back; all others by
/// the order of parts.
pub open spec fn strength_rank(reach: Map<Label, HashSet<Label>>, a: PartV, b: PartV) -> int {
    if a.1.len() != 1 || b.1.len() != 1 {
        part_rank(a, b)
    } else {
        let la = a.1[0];
        let lb = b.1[0];
        if reach_has(reach, la, lb) && !reach_has(reach, lb, la) {
            -1
        } else if !reach_has(reach, la, lb) && reach_has(reach, lb, la) {
            1
        } else {
            part_rank(a, b)
        }
    }
}

/// No two neighbouring parts are in the wrong order.
pub open spec fn strength_sorted(reach: Map<Label, HashSet<Label>>, ps: Seq<PartV>) -> bool {
    forall|i: int| 0 <= i < ps.len() - 1 ==> strength_rank(reach, #[trigger] ps[i], ps[i + 1]) != 1
}

/// Compares two parts by strength, with the diagram given by its pairs: two
/// parts of one label each are ordered by the diagram when one label reaches
/// the other but not back; all others by the order of parts.
pub open spec fn diagram_rank(d: Seq<(Label, Label)>, a: PartV, b: PartV) -> int {
    if a.1.len() != 1 || b.1.len() != 1 {
        part_rank(a, b)
    } else {
        let la = a.1[0];
        let lb = b.1[0];
        if d.contains((la, lb)) && !d.contains((lb, la)) {
            -1
        } else if !d.contains((la, lb)) && d.contains((lb, la)) {
            1
        } else {
            part_rank(a, b)
        }
    }
}

/// No two neighbouring parts are in the wrong order of strength, with the
/// diagram given by its pairs.
pub open spec fn diagram_sorted(d: Seq<(Label, Label)>, ps: Seq<PartV>) -> bool {
    forall|i: int| 0 <= i < ps.len() - 1 ==> diagram_rank(d, #[trigger] ps[i], ps[i + 1]) != 1
}

/// The reachability map knows the label of every part of one label.
pub open spec fn reach_knows(reach: Map<Label, HashSet<Label>>, ps: Seq<PartV>) -> bool {
    forall|i: int| 0 <= i < ps.len() && (#[trigger] ps[i]).1.len() == 1 ==> reach.contains_key(ps[i].1[0])
}

proof fn lemma_strength_antisymmetric(reach: Map<Label, HashSet<Label>>, a: PartV, b: PartV)
    requires
        strength_rank(reach, a, b) == 1,
    ensures
        strength_rank(reach, b, a) == -1,
{
    crate::order::lemma_part_lt_total(a, b);
    if part_lt(b, a) && part_lt(a, b) {
        crate::order::lemma_part_lt_transitive(a, b, a);
        crate::order::lemma_part_lt_irreflexive(a);
    }
}

/// Whether two parts are equal.
fn same_part(a: &Part, b: &Part) -> (r: bool)
    ensures
        r == (a@ == b@),
{
    a.gtype == b.gtype && a.group.same_as(&b.group)
}

/// Compares two parts by strength.
fn strength_rank_of(reach: &HashMap<Label, HashSet<Label>>, a: &Part, b: &Part) -> (r: i8)
    requires
        a@.1.len() == 1 ==> reach@.contains_key(a@.1[0]),
        b@.1.len() == 1 ==> reach@.contains_key(b@.1[0]),
    ensures
        r == strength_rank(reach@, a@, b@),
{
    let by_order: i8 = if part_less(a, b) { -1 } else if same_part(a, b) { 0 } else { 1 };
    if a.group.len() != 1 || b.group.len() != 1 {
        by_order
    } else {
        let la = a.group.0[0];
        let lb = b.group.0[0];
        let ra = reach.get(&la).unwrap();
        let rb = reach.get(&lb).unwrap();
        let ab = ra.contains(&lb);
        let ba = rb.contains(&la);
        if ab && !ba {
            -1
        } else if !ab && ba {
            1
        } else {
            by_order
        }
    }
}

impl Line {
    /// Sorts the parts by strength: a part of one label goes before a part of
    /// one label that its label reaches in the diagram without being reached
    /// back; otherwise parts keep the order of parts.
    pub fn sort_by_strength(&mut self, reachability: &HashMap<Label, HashSet<Label>>)
        requires
            old(self).wf(),
            reach_knows(reachability@, old(self)@),
        ensures
            final(self).wf(),
            final(self)@.to_multiset() == old(self)@.to_multiset(),
            strength_sorted(reachability@, final(self)@),
            degree_spec(final(self)@) == degree_spec(old(self)@),
    {
        let ghost ps = self@;
        let mut r: Vec<Part> = Vec::new();
        let mut i: usize = 0;
        while i < self.parts.len()
            invariant
                ps == self@,
                parts_wf(ps),
                reach_knows(reachability@, ps),
                i <= ps.len(),
                parts_view(r@).to_multiset() == ps.subrange(0, i as int).to_multiset(),
                r@.len() == i,
                strength_sorted(reachability@, parts_view(r@)),
                degree_without_star_spec(parts_view(r@)) == degree_without_star_spec(ps.subrange(0, i as int)),
                has_star_spec(parts_view(r@)) == has_star_spec(ps.subrange(0, i as int)),
                forall|q: int| 0 <= q < r@.len() ==> ps.subrange(0, i as int).contains(#[trigger] parts_view(r@)[q]),
            decreases ps.len() - i,
        {
            let x = self.parts[i].duplicate();
            assert(x@ == ps[i as int]);
            let ghost rv = parts_view(r@);
            let mut k: usize = 0;
            let mut stop = false;
            while k < r.len() && !stop
                invariant
                    k <= r@.len(),
                    rv == parts_view(r@),
                    reach_knows(reachability@, ps),
                    i < ps.len(),
                    x@ == ps[i as int],
                    forall|q: int| 0 <= q < r@.len() ==> ps.subrange(0, i as int).contains(#[trigger] rv[q]),
                    forall|q: int| 0 <= q < k ==> strength_rank(reachability@, #[trigger] rv[q], x@) != 1,
                    stop ==> k < r@.len() && strength_rank(reachability@, rv[k as int], x@) == 1,
                decreases r@.len() - k + (if stop { 0int } else { 1int }),
            {
                proof {
                    assert(ps.subrange(0, i as int).contains(rv[k as int]));
                    let w = choose|w: int| 0 <= w < i && ps.subrange(0, i as int)[w] == rv[k as int];
                    assert(ps[w] == rv[k as int]);
                    assert(rv[k as int] == r@[k as int]@);
                }
                if strength_rank_of(reachability, &r[k], &x) == 1 {
                    stop = true;
                } else {
                    k += 1;
                }
            }
            let ghost xv = x@;
            r.insert(k, x);
            proof {
                let nv = parts_view(r@);
                let left = rv.subrange(0, k as int);
                let right = rv.subrange(k as int, rv.len() as int);
                assert(nv =~= left.push(xv) + right);
                assert(rv =~= left + right);
                vstd::seq_lib::lemma_multiset_commutative(left.push(xv), right);
                vstd::seq_lib::lemma_multiset_commutative(left, right);
                assert(ps.subrange(0, i + 1) =~= ps.subrange(0, i as int).push(xv));
                assert(nv.to_multiset() =~= ps.subrange(0, i + 1).to_multiset());
                assert forall|q: int| 0 <= q < nv.len() - 1 implies strength_rank(reachability@, #[trigger] nv[q], nv[q + 1]) != 1 by {
                    if q + 1 < k {
                        assert(nv[q] == rv[q] && nv[q + 1] == rv[q + 1]);
                    } else if q + 1 == k {
                        assert(nv[q] == rv[q] && nv[q + 1] == xv);
                    } else if q == k {
                        assert(nv[q] == xv && nv[q + 1] == rv[k as int]);
                        assert(stop);
                        lemma_strength_antisymmetric(reachability@, rv[k as int], xv);
                    } else {
                        assert(nv[q] == rv[q - 1] && nv[q + 1] == rv[q]);
                    }
                }
                crate::normalize::lemma_degree_insert(rv, k as int, xv);
                assert(ps.subrange(0, i + 1).drop_last() =~= ps.subrange(0, i as int));
                assert(has_star_spec(nv) == has_star_spec(ps.subrange(0, i + 1))) by {
                    if has_star_spec(nv) {
                        let q = choose|q: int| 0 <= q < nv.len() && (#[trigger] nv[q]).0 == GroupType::Star;
                        if q == k {
                            assert(ps.subrange(0, i + 1)[i as int] == xv);
                        } else {
                            let w = if q < k { q } else { q - 1 };
                            assert(nv[q] == rv[w]);
                            assert(ps.subrange(0, i as int).contains(rv[w]));
                            let z = choose|z: int| 0 <= z < i && ps.subrange(0, i as int)[z] == rv[w];
                            assert(ps.subrange(0, i + 1)[z] == rv[w]);
                        }
                    }
                    if has_star_spec(ps.subrange(0, i + 1)) {
                        let z = choose|z: int| 0 <= z < i + 1 && (#[trigger] ps.subrange(0, i + 1)[z]).0 == GroupType::Star;
                        if z == i {
                            assert(nv[k as int] == xv);
                        } else {
                            assert(ps.subrange(0, i as int)[z] == ps.subrange(0, i + 1)[z]);
                            assert(has_star_spec(ps.subrange(0, i as int)));
                            let q = choose|q: int| 0 <= q < rv.len() && (#[trigger] rv[q]).0 == GroupType::Star;
                            let w = if q < k { q } else { q + 1 };
                            assert(nv[w] == rv[q]);
                        }
                    }
                }
                assert forall|q: int| 0 <= q < nv.len() implies ps.subrange(0, i + 1).contains(#[trigger] nv[q]) by {
                    if q == k {
                        assert(ps.subrange(0, i + 1)[i as int] == xv);
                    } else {
                        let w = if q < k { q } else { q - 1 };
                        assert(nv[q] == rv[w]);
                        let z = choose|z: int| 0 <= z < i && ps.subrange(0, i as int)[z] == rv[w];
                        assert(ps.subrange(0, i + 1)[z] == rv[w]);
                    }
                }
            }
            i += 1;
        }
        proof {
            assert(ps.subrange(0, ps.len() as int) =~= ps);
            let nv = parts_view(r@);
            assert forall|q: int| 0 <= q < nv.len() implies crate::group::strictly_sorted(#[trigger] nv[q].1) by {
                let z = choose|z: int| 0 <= z < ps.len() && ps[z] == nv[q];
            }
        }
        self.parts = r;
    }
}

impl Constraint {
    /// Sorts the parts of every line by strength.
    pub fn sort_lines_by_strength(&mut self, reachability: &HashMap<Label, HashSet<Label>>)
        requires
            old(self).wf(),
            forall|k: int| 0 <= k < old(self)@.len() ==> reach_knows(reachability@, #[trigger] old(self)@[k]),
        ensures
            final(self).wf(),
            final(self).degree == old(self).degree,
            final(self).is_maximized == old(self).is_maximized,
            final(self)@.len() == old(self)@.len(),
            forall|k: int| 0 <= k < final(self)@.len() ==> (#[trigger] final(self)@[k]).to_multiset() == old(self)@[k].to_multiset()
                && strength_sorted(reachability@, final(self)@[k]),
    {
        let ghost ls = self@;
        let mut lines: Vec<Line> = Vec::new();
        std::mem::swap(&mut lines, &mut self.lines);
        let mut out: Vec<Line> = Vec::new();
        let mut k: usize = 0;
        while k < lines.len()
            invariant
                ls == lines_view(lines@),
                lines_wf(lines@, self.degree),
                forall|q: int| 0 <= q < ls.len() ==> reach_knows(reachability@, #[trigger] ls[q]),
                k <= lines@.len(),
                out@.len() == k,
                lines_wf(out@, self.degree),
                forall|q: int| 0 <= q < k ==> (#[trigger] out@[q])@.to_multiset() == ls[q].to_multiset()
                    && strength_sorted(reachability@, out@[q]@),
            decreases lines@.len() - k,
        {
            let mut l = lines[k].duplicate();
            assert(ls[k as int] == lines@[k as int]@);
            assert(lines@[k as int].wf());
            l.sort_by_strength(reachability);
            out.push(l);
            k += 1;
        }
        self.lines = out;
        proof {
            assert forall|q: int| 0 <= q < self@.len() implies (#[trigger] self@[q]).to_multiset() == ls[q].to_multiset()
                && strength_sorted(reachability@, self@[q]) by {
                assert(self@[q] == out@[q]@);
            }
        }
    }
}

/// The reachability map of a diagram given by its pairs: each label that
/// starts a pair, with the labels that its pairs lead to.
pub fn reachability_adj(pairs: &Vec<(Label, Label)>) -> (r: HashMap<Label, HashSet<Label>>)
    ensures
        forall|a: Label| r@.contains_key(a) <==> exists|q: int| 0 <= q < pairs@.len() && (#[trigger] pairs@[q]).0 == a,
        forall|a: Label, b: Label| r@.contains_key(a) ==> (r@[a]@.contains(b) <==> pairs@.contains((a, b))),
{
    let mut m: HashMap<Label, HashSet<Label>> = HashMap::new();
    let mut i: usize = 0;
    while i < pairs.len()
        invariant
            i <= pairs@.len(),
            forall|a: Label| m@.contains_key(a) <==> exists|q: int| 0 <= q < i && (#[trigger] pairs@[q]).0 == a,
            forall|a: Label, b: Label| m@.contains_key(a) ==> (m@[a]@.contains(b) <==> pairs@.contains((a, b))),
        decreases pairs@.len() - i,
    {
        let a = pairs[i].0;
        if m.get(&a).is_none() {
            let mut h: HashSet<Label> = HashSet::new();
            let mut j: usize = 0;
            while j < pairs.len()
                invariant
                    j <= pairs@.len(),
                    forall|b: Label| h@.contains(b) <==> exists|q: int| 0 <= q < j && pairs@[q] == (a, b),
                decreases pairs@.len() - j,
            {
                if pairs[j].0 == a {
                    h.insert(pairs[j].1);
                }
                j += 1;
            }
            proof {
                assert forall|b: Label| h@.contains(b) <==> pairs@.contains((a, b)) by {
                    if pairs@.contains((a, b)) {
                        let q = choose|q: int| 0 <= q < pairs@.len() && pairs@[q] == (a, b);
                    }
                }
            }
            m.insert(a, h);
        }
        proof {
            assert forall|x: Label| m@.contains_key(x) <==> exists|q: int| 0 <= q < i + 1 && (#[trigger] pairs@[q]).0 == x by {
                if m@.contains_key(x) && x != a {
                    let q = choose|q: int| 0 <= q < i && (#[trigger] pairs@[q]).0 == x;
                }
                if x == a {
                    assert(pairs@[i as int].0 == a);
                }
            }
        }
        i += 1;
    }
    m
}

/// A part of one label of a line with the same parts as line `k` of `ls`
/// carries a label of `ls`.
proof fn lemma_label_of_line(ls: Seq<Seq<PartV>>, k: int, ps: Seq<PartV>, i: int)
    requires
        0 <= k < ls.len(),
        ps.to_multiset() == ls[k].to_multiset(),
        0 <= i < ps.len(),
        ps[i].1.len() == 1,
    ensures
        labels_spec(ls).contains(ps[i].1[0]),
{
    let x = ps[i];
    assert(ps.contains(x));
    assert(ps.to_multiset().count(x) > 0);
    assert(ls[k].contains(x));
    let w = choose|w: int| 0 <= w < ls[k].len() && ls[k][w] == x;
    assert(ls[k][w].1.contains(x.1[0]));
}

impl Problem {
    /// Sorts the parts of every active line by strength, as the diagram says.
    pub fn sort_active_by_strength(&mut self)
        requires
            old(self).active.wf(),
            old(self).diagram_indirect is Some,
            forall|l: Label| labels_spec(old(self).active@).contains(l)
                ==> exists|q: int| 0 <= q < old(self).diagram_indirect->Some_0@.len() && (#[trigger] old(self).diagram_indirect->Some_0@[q]).0 == l,
        ensures
            final(self).active.wf(),
            final(self).active.degree == old(self).active.degree,
            final(self).active@.len() == old(self).active@.len(),
            forall|k: int| 0 <= k < final(self).active@.len() ==> (#[trigger] final(self).active@[k]).to_multiset() == old(self).active@[k].to_multiset(),
            forall|k: int| 0 <= k < final(self).active@.len() ==> diagram_sorted(old(self).diagram_indirect->Some_0@, #[trigger] final(self).active@[k]),
            final(self).active.is_maximized == old(self).active.is_maximized,
            *final(self) == (Problem { active: final(self).active, ..*old(self) }),
    {
        let ghost d = self.diagram_indirect->Some_0@;
        let reach = match &self.diagram_indirect {
            Some(d) => reachability_adj(d),
            None => HashMap::new(),
        };
        proof {
            let ls = self.active@;
            assert forall|k: int| 0 <= k < ls.len() implies reach_knows(reach@, #[trigger] ls[k]) by {
                assert forall|i: int| 0 <= i < ls[k].len() && (#[trigger] ls[k][i]).1.len() == 1 implies reach@.contains_key(ls[k][i].1[0]) by {
                    let l = ls[k][i].1[0];
                    assert(ls[k][i].1.contains(l));
                    assert(labels_spec(ls).contains(l));
                }
            }
        }
        let ghost before = self.active@;
        self.active.sort_lines_by_strength(&reach);
        proof {
            assert forall|k: int| 0 <= k < self.active@.len() implies diagram_sorted(d, #[trigger] self.active@[k]) by {
                let ps = self.active@[k];
                assert(strength_sorted(reach@, ps));
                assert forall|i: int| 0 <= i < ps.len() - 1 implies diagram_rank(d, #[trigger] ps[i], ps[i + 1]) != 1 by {
                    assert(strength_rank(reach@, ps[i], ps[i + 1]) != 1);
                    if ps[i].1.len() == 1 && ps[i + 1].1.len() == 1 {
                        lemma_label_of_line(before, k, ps, i);
                        lemma_label_of_line(before, k, ps, i + 1);
                    }
                }
            }
        }
    }
}

} // verus!
