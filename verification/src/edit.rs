use vstd::prelude::*;

use crate::constraint::{lines_view, lines_wf, Constraint};
use crate::group::{strictly_sorted, Group, GroupType, Label};
use crate::line::{degree_spec, degree_without_star_spec, has_star_spec, normalized_from, parts_wf, Line, PartV};
use crate::normalize::lemma_sorted_same_set;
use crate::order::parts_view;
use crate::part::Part;

verus! {

/// The strictly increasing sequence of the labels of a finite set.
pub open spec fn sorted_of(s: Set<Label>) -> Seq<Label> {
    choose|q: Seq<Label>| strictly_sorted(q) && q.to_set() == s
}

/// A strictly increasing sequence is the sorted sequence of its labels.
pub proof fn lemma_sorted_of(q: Seq<Label>)
    requires
        strictly_sorted(q),
    ensures
        sorted_of(q.to_set()) == q,
{
    let c = sorted_of(q.to_set());
    assert(strictly_sorted(c) && c.to_set() == q.to_set());
    lemma_sorted_same_set(c, q);
}

/// A change applied to every group of a constraint.
pub enum EditOp {
    /// Where `from` occurs, add `to`, and drop `from` if `remove_from`.
    Relax { from: Label, to: Label, remove_from: bool },
    /// Where a label of `from` occurs, add `to`, and drop the labels of
    /// `from` if `remove_from`.
    RelaxGroup { from: Group, to: Label, remove_from: bool },
    /// Keep only the labels of `keep`.
    Keep { keep: Group },
    /// Replace each label by the labels that reach it in the diagram given
    /// by its pairs.
    AddPredecessors { pairs: Vec<(Label, Label)> },
    /// Replace the group by the positions of `names` that hold exactly its
    /// labels.
    Number { names: Vec<Vec<Label>> },
    /// Replace the group by the positions of `names` that share a label
    /// with it.
    Meeting { names: Vec<Vec<Label>> },
    /// Keep the labels that no other label of the group reaches in the
    /// diagram given by the pairs.
    Generators { pairs: Vec<(Label, Label)> },
    /// Replace the group by the positions of `names` whose labels all belong
    /// to it.
    Within { names: Vec<Vec<Label>> },
}

/// How many labels of `g` belong to `s`.
pub open spec fn count_within(g: Seq<Label>, s: Set<Label>) -> nat
    decreases g.len(),
{
    if g.len() == 0 {
        0
    } else {
        count_within(g.drop_last(), s) + if s.contains(g.last()) { 1nat } else { 0nat }
    }
}

/// The labels of `g` reached by exactly one label of `g`.
pub open spec fn generators_of(pairs: Seq<(Label, Label)>, g: Seq<Label>) -> Set<Label> {
    Set::new(|x: Label| g.contains(x) && count_within(g, preds_of(pairs, x).to_set()) == 1)
}

/// The positions of `names` that hold the labels of `g`, as labels.
pub open spec fn positions_of(names: Seq<Vec<Label>>, g: Seq<Label>) -> Set<Label> {
    Set::new(|l: Label| exists|i: int| 0 <= i < names.len() && l == i as Label && #[trigger] names[i]@ == g)
}

/// The positions of `names` whose labels all belong to `g`, as labels.
pub open spec fn positions_within(names: Seq<Vec<Label>>, g: Seq<Label>) -> Set<Label> {
    Set::new(|l: Label| exists|i: int| 0 <= i < names.len() && l == i as Label
        && (#[trigger] names[i]@).to_set().subset_of(g.to_set()))
}

/// The positions of `names` whose labels meet those of `g`, as labels.
pub open spec fn positions_meeting(names: Seq<Vec<Label>>, g: Seq<Label>) -> Set<Label> {
    Set::new(|l: Label| exists|i: int| 0 <= i < names.len() && l == i as Label
        && !(#[trigger] names[i]@).to_set().disjoint(g.to_set()))
}

/// The first labels of the pairs whose second label is `l`, in order.
pub open spec fn preds_of(pairs: Seq<(Label, Label)>, l: Label) -> Seq<Label>
    decreases pairs.len(),
{
    if pairs.len() == 0 {
        Seq::empty()
    } else if pairs.last().1 == l {
        preds_of(pairs.drop_last(), l).push(pairs.last().0)
    } else {
        preds_of(pairs.drop_last(), l)
    }
}

/// The labels that reach some label of `g`, label after label of `g`.
pub open spec fn preds_all(pairs: Seq<(Label, Label)>, g: Seq<Label>) -> Seq<Label>
    decreases g.len(),
{
    if g.len() == 0 {
        Seq::empty()
    } else {
        preds_all(pairs, g.drop_last()) + preds_of(pairs, g.last())
    }
}

/// The labels of group `g` after the change.
pub open spec fn edit_set(op: EditOp, g: Seq<Label>) -> Set<Label> {
    match op {
        EditOp::Relax { from, to, remove_from } => {
            if !g.contains(from) {
                g.to_set()
            } else if remove_from {
                g.to_set().remove(from).insert(to)
            } else {
                g.to_set().insert(to)
            }
        },
        EditOp::RelaxGroup { from, to, remove_from } => {
            if g.to_set().intersect(from@.to_set()) == Set::<Label>::empty() {
                g.to_set()
            } else if remove_from {
                g.to_set().difference(from@.to_set()).insert(to)
            } else {
                g.to_set().insert(to)
            }
        },
        EditOp::Keep { keep } => g.to_set().intersect(keep@.to_set()),
        EditOp::AddPredecessors { pairs } => preds_all(pairs@, g).to_set(),
        EditOp::Number { names } => positions_of(names@, g),
        EditOp::Meeting { names } => positions_meeting(names@, g),
        EditOp::Generators { pairs } => generators_of(pairs@, g),
        EditOp::Within { names } => positions_within(names@, g),
    }
}

/// The change is well formed: its groups are strictly increasing.
pub open spec fn edit_wf(op: EditOp) -> bool {
    match op {
        EditOp::Relax { .. } => true,
        EditOp::RelaxGroup { from, .. } => from.wf(),
        EditOp::Keep { keep } => keep.wf(),
        EditOp::AddPredecessors { .. } => true,
        EditOp::Number { .. } => true,
        EditOp::Meeting { .. } => true,
        EditOp::Generators { .. } => true,
        EditOp::Within { .. } => true,
    }
}

/// The parts with their groups changed.
pub open spec fn edited_parts(op: EditOp, ps: Seq<PartV>) -> Seq<PartV> {
    ps.map_values(|p: PartV| (p.0, sorted_of(edit_set(op, p.1))))
}

/// Every group of the line holds a label.
pub open spec fn groups_nonempty(ps: Seq<PartV>) -> bool {
    forall|i: int| 0 <= i < ps.len() ==> (#[trigger] ps[i]).1.len() > 0
}

/// `rs` are, in order, the lines of `ls` with their groups changed and
/// brought into normal form, except those in which a group became empty.
pub open spec fn edited_lines(op: EditOp, ls: Seq<Seq<PartV>>, rs: Seq<Seq<PartV>>) -> bool
    decreases ls.len(),
{
    if ls.len() == 0 {
        rs.len() == 0
    } else {
        let e = edited_parts(op, ls.last());
        ||| rs.len() > 0 && normalized_from(rs.last(), e) && groups_nonempty(rs.last())
            && edited_lines(op, ls.drop_last(), rs.drop_last())
        ||| (forall|r: Seq<PartV>| #[trigger] normalized_from(r, e) ==> !groups_nonempty(r))
            && edited_lines(op, ls.drop_last(), rs)
    }
}

/// The group of one label.
fn single(l: Label) -> (r: Group)
    ensures
        r.wf(),
        r@ == seq![l],
        r.labels() == set![l],
{
    let mut v: Vec<Label> = Vec::new();
    v.push(l);
    let r = Group(v);
    assert(r@ =~= seq![l]);
    assert(r.labels() =~= set![l]) by {
        assert forall|x: Label| r@.contains(x) <==> x == l by {
            if x == l {
                assert(r@[0] == l);
            }
        }
    }
    r
}

/// The group `g` after the change.
pub fn apply_edit(op: &EditOp, g: &Group) -> (r: Group)
    requires
        g.wf(),
        edit_wf(*op),
    ensures
        r.wf(),
        r.labels() == edit_set(*op, g@),
{
    match op {
        EditOp::Relax { from, to, remove_from } => {
            if !g.contains(*from) {
                g.duplicate()
            } else {
                let one = single(*from);
                let base = if *remove_from { g.difference(&one) } else { g.duplicate() };
                let r = base.union(&single(*to));
                proof {
                    if *remove_from {
                        assert(r.labels() =~= g@.to_set().remove(*from).insert(*to));
                    } else {
                        assert(r.labels() =~= g@.to_set().insert(*to));
                    }
                }
                r
            }
        },
        EditOp::RelaxGroup { from, to, remove_from } => {
            let common = g.intersection(from);
            if common.is_empty() {
                proof {
                    assert(common.labels() =~= Set::<Label>::empty());
                }
                g.duplicate()
            } else {
                proof {
                    assert(common.labels().contains(common@[0]));
                }
                let base = if *remove_from { g.difference(from) } else { g.duplicate() };
                let r = base.union(&single(*to));
                proof {
                    if *remove_from {
                        assert(r.labels() =~= g@.to_set().difference(from@.to_set()).insert(*to));
                    } else {
                        assert(r.labels() =~= g@.to_set().insert(*to));
                    }
                }
                r
            }
        },
        EditOp::Keep { keep } => g.intersection(keep),
        EditOp::AddPredecessors { pairs } => {
            let mut v: Vec<Label> = Vec::new();
            let mut i: usize = 0;
            while i < g.0.len()
                invariant
                    i <= g@.len(),
                    v@ == preds_all(pairs@, g@.subrange(0, i as int)),
                decreases g@.len() - i,
            {
                let l = g.0[i];
                let mut k: usize = 0;
                let ghost before = v@;
                while k < pairs.len()
                    invariant
                        k <= pairs@.len(),
                        v@ == before + preds_of(pairs@.subrange(0, k as int), l),
                    decreases pairs@.len() - k,
                {
                    proof {
                        let sub = pairs@.subrange(0, k + 1);
                        assert(sub.drop_last() =~= pairs@.subrange(0, k as int));
                        assert(sub.last() == pairs@[k as int]);
                    }
                    if pairs[k].1 == l {
                        v.push(pairs[k].0);
                    }
                    k += 1;
                    assert(v@ =~= before + preds_of(pairs@.subrange(0, k as int), l));
                }
                proof {
                    assert(pairs@.subrange(0, pairs@.len() as int) =~= pairs@);
                    let sub = g@.subrange(0, i + 1);
                    assert(sub.drop_last() =~= g@.subrange(0, i as int));
                    assert(sub.last() == l);
                }
                i += 1;
            }
            assert(g@.subrange(0, g@.len() as int) =~= g@);
            Group::from_labels(&v)
        },
        EditOp::Number { names } => {
            let mut v: Vec<Label> = Vec::new();
            let mut i: usize = 0;
            while i < names.len()
                invariant
                    i <= names@.len(),
                    v@.to_set() == Set::new(|l: Label| exists|q: int| 0 <= q < i && l == q as Label && #[trigger] names@[q]@ == g@),
                decreases names@.len() - i,
            {
                let ghost before = v@;
                if crate::group::labels_equal(&names[i], &g.0) {
                    v.push(i as Label);
                }
                proof {
                    let now = Set::new(|l: Label| exists|q: int| 0 <= q < i + 1 && l == q as Label && #[trigger] names@[q]@ == g@);
                    let prev = Set::new(|l: Label| exists|q: int| 0 <= q < i && l == q as Label && #[trigger] names@[q]@ == g@);
                    assert forall|l: Label| v@.to_set().contains(l) <==> now.contains(l) by {
                        if v@.len() > before.len() {
                            before.lemma_push_to_set_commute(i as Label);
                        } else {
                            assert(v@ == before);
                        }
                        if now.contains(l) {
                            let q = choose|q: int| 0 <= q < i + 1 && l == q as Label && #[trigger] names@[q]@ == g@;
                            if q < i {
                                assert(prev.contains(l));
                            }
                        }
                        if prev.contains(l) {
                            let q = choose|q: int| 0 <= q < i && l == q as Label && #[trigger] names@[q]@ == g@;
                            assert(now.contains(l));
                        }
                    }
                    assert(v@.to_set() =~= now);
                }
                i += 1;
            }
            proof {
                assert(v@.to_set() =~= positions_of(names@, g@));
            }
            Group::from_labels(&v)
        },
        EditOp::Meeting { names } => {
            let mut v: Vec<Label> = Vec::new();
            let mut i: usize = 0;
            while i < names.len()
                invariant
                    g.wf(),
                    i <= names@.len(),
                    v@.to_set() == Set::new(|l: Label| exists|q: int| 0 <= q < i && l == q as Label
                        && !(#[trigger] names@[q]@).to_set().disjoint(g@.to_set())),
                decreases names@.len() - i,
            {
                let ghost before = v@;
                let meets = names_meet(&names[i], g);
                if meets {
                    v.push(i as Label);
                }
                proof {
                    let now = Set::new(|l: Label| exists|q: int| 0 <= q < i + 1 && l == q as Label
                        && !(#[trigger] names@[q]@).to_set().disjoint(g@.to_set()));
                    let prev = Set::new(|l: Label| exists|q: int| 0 <= q < i && l == q as Label
                        && !(#[trigger] names@[q]@).to_set().disjoint(g@.to_set()));
                    assert forall|l: Label| v@.to_set().contains(l) <==> now.contains(l) by {
                        if v@.len() > before.len() {
                            before.lemma_push_to_set_commute(i as Label);
                        } else {
                            assert(v@ == before);
                        }
                        if now.contains(l) {
                            let q = choose|q: int| 0 <= q < i + 1 && l == q as Label
                                && !(#[trigger] names@[q]@).to_set().disjoint(g@.to_set());
                            if q < i {
                                assert(prev.contains(l));
                            }
                        }
                        if prev.contains(l) {
                            let q = choose|q: int| 0 <= q < i && l == q as Label
                                && !(#[trigger] names@[q]@).to_set().disjoint(g@.to_set());
                            assert(now.contains(l));
                        }
                    }
                    assert(v@.to_set() =~= now);
                }
                i += 1;
            }
            proof {
                assert(v@.to_set() =~= positions_meeting(names@, g@));
            }
            Group::from_labels(&v)
        },
        EditOp::Within { names } => {
            let mut v: Vec<Label> = Vec::new();
            let mut i: usize = 0;
            while i < names.len()
                invariant
                    g.wf(),
                    i <= names@.len(),
                    v@.to_set() == Set::new(|l: Label| exists|q: int| 0 <= q < i && l == q as Label
                        && (#[trigger] names@[q]@).to_set().subset_of(g@.to_set())),
                decreases names@.len() - i,
            {
                let ghost before = v@;
                let within = names_within(&names[i], g);
                if within {
                    v.push(i as Label);
                }
                proof {
                    let now = Set::new(|l: Label| exists|q: int| 0 <= q < i + 1 && l == q as Label
                        && (#[trigger] names@[q]@).to_set().subset_of(g@.to_set()));
                    let prev = Set::new(|l: Label| exists|q: int| 0 <= q < i && l == q as Label
                        && (#[trigger] names@[q]@).to_set().subset_of(g@.to_set()));
                    assert forall|l: Label| v@.to_set().contains(l) <==> now.contains(l) by {
                        if v@.len() > before.len() {
                            before.lemma_push_to_set_commute(i as Label);
                        } else {
                            assert(v@ == before);
                        }
                        if now.contains(l) {
                            let q = choose|q: int| 0 <= q < i + 1 && l == q as Label
                                && (#[trigger] names@[q]@).to_set().subset_of(g@.to_set());
                            if q < i {
                                assert(prev.contains(l));
                            }
                        }
                        if prev.contains(l) {
                            let q = choose|q: int| 0 <= q < i && l == q as Label
                                && (#[trigger] names@[q]@).to_set().subset_of(g@.to_set());
                            assert(now.contains(l));
                        }
                    }
                    assert(v@.to_set() =~= now);
                }
                i += 1;
            }
            proof {
                assert(v@.to_set() =~= positions_within(names@, g@));
            }
            Group::from_labels(&v)
        },
        EditOp::Generators { pairs } => {
            let mut v: Vec<Label> = Vec::new();
            let mut i: usize = 0;
            while i < g.0.len()
                invariant
                    i <= g@.len(),
                    v@.to_set() == Set::new(|x: Label| g@.subrange(0, i as int).contains(x)
                        && count_within(g@, preds_of(pairs@, x).to_set()) == 1),
                decreases g@.len() - i,
            {
                let x = g.0[i];
                let c = count_reaching(pairs, &g.0, x);
                let ghost before = v@;
                if c == 1 {
                    v.push(x);
                }
                proof {
                    let sub0 = g@.subrange(0, i as int);
                    let sub1 = g@.subrange(0, i + 1);
                    assert(sub1 =~= sub0.push(x));
                    if c == 1 {
                        before.lemma_push_to_set_commute(x);
                    }
                    assert forall|y: Label| v@.to_set().contains(y) <==> (sub1.contains(y)
                        && count_within(g@, preds_of(pairs@, y).to_set()) == 1) by {
                        if sub1.contains(y) && y != x {
                            let q = choose|q: int| 0 <= q < sub1.len() && sub1[q] == y;
                            assert(sub0[q] == y);
                        }
                        if sub0.contains(y) {
                            let q = choose|q: int| 0 <= q < sub0.len() && sub0[q] == y;
                            assert(sub1[q] == y);
                        }
                        if y == x {
                            assert(sub1[i as int] == x);
                        }
                    }
                    assert(v@.to_set() =~= Set::new(|y: Label| sub1.contains(y)
                        && count_within(g@, preds_of(pairs@, y).to_set()) == 1));
                }
                i += 1;
            }
            proof {
                assert(g@.subrange(0, g@.len() as int) =~= g@);
                assert(v@.to_set() =~= generators_of(pairs@, g@));
            }
            Group::from_labels(&v)
        },
    }
}

/// How many labels of `g` reach `x` in the diagram given by the pairs.
fn count_reaching(pairs: &Vec<(Label, Label)>, g: &Vec<Label>, x: Label) -> (r: usize)
    ensures
        r == count_within(g@, preds_of(pairs@, x).to_set()),
{
    let mut r: usize = 0;
    let mut i: usize = 0;
    while i < g.len()
        invariant
            i <= g@.len(),
            r == count_within(g@.subrange(0, i as int), preds_of(pairs@, x).to_set()),
            r <= i,
        decreases g@.len() - i,
    {
        let y = g[i];
        let mut found = false;
        let mut k: usize = 0;
        while k < pairs.len()
            invariant
                k <= pairs@.len(),
                found == preds_of(pairs@.subrange(0, k as int), x).contains(y),
            decreases pairs@.len() - k,
        {
            proof {
                let sub = pairs@.subrange(0, k + 1);
                assert(sub.drop_last() =~= pairs@.subrange(0, k as int));
                assert(sub.last() == pairs@[k as int]);
                let p0 = preds_of(pairs@.subrange(0, k as int), x);
                if pairs@[k as int].1 == x {
                    assert(preds_of(sub, x) == p0.push(pairs@[k as int].0));
                    assert(p0.push(pairs@[k as int].0).contains(y) <==> (p0.contains(y) || pairs@[k as int].0 == y)) by {
                        if p0.push(pairs@[k as int].0).contains(y) {
                            let q = choose|q: int| 0 <= q < p0.len() + 1 && p0.push(pairs@[k as int].0)[q] == y;
                            if q < p0.len() {
                                assert(p0[q] == y);
                            }
                        }
                        if p0.contains(y) {
                            let q = choose|q: int| 0 <= q < p0.len() && p0[q] == y;
                            assert(p0.push(pairs@[k as int].0)[q] == y);
                        }
                        if pairs@[k as int].0 == y {
                            assert(p0.push(pairs@[k as int].0)[p0.len() as int] == y);
                        }
                    }
                }
            }
            if pairs[k].1 == x && pairs[k].0 == y {
                found = true;
            }
            k += 1;
        }
        proof {
            assert(pairs@.subrange(0, pairs@.len() as int) =~= pairs@);
            let sub = g@.subrange(0, i + 1);
            assert(sub.drop_last() =~= g@.subrange(0, i as int));
            assert(sub.last() == y);
        }
        if found {
            r += 1;
        }
        i += 1;
    }
    assert(g@.subrange(0, g@.len() as int) =~= g@);
    r
}

/// Whether every label of `v` belongs to `g`.
fn names_within(v: &Vec<Label>, g: &Group) -> (r: bool)
    ensures
        r == v@.to_set().subset_of(g@.to_set()),
{
    let mut i: usize = 0;
    while i < v.len()
        invariant
            i <= v@.len(),
            forall|q: int| 0 <= q < i ==> g@.contains(#[trigger] v@[q]),
        decreases v@.len() - i,
    {
        if !g.contains(v[i]) {
            proof {
                assert(v@.to_set().contains(v@[i as int]));
            }
            return false;
        }
        i += 1;
    }
    proof {
        assert forall|x: Label| v@.to_set().contains(x) implies g@.to_set().contains(x) by {
            let q = choose|q: int| 0 <= q < v@.len() && v@[q] == x;
        }
    }
    true
}

/// Whether the labels of `v` and of `g` have one in common.
fn names_meet(v: &Vec<Label>, g: &Group) -> (r: bool)
    ensures
        r == !v@.to_set().disjoint(g@.to_set()),
{
    let mut i: usize = 0;
    while i < v.len()
        invariant
            i <= v@.len(),
            forall|q: int| 0 <= q < i ==> !g@.contains(#[trigger] v@[q]),
        decreases v@.len() - i,
    {
        if g.contains(v[i]) {
            proof {
                assert(v@.to_set().contains(v@[i as int]) && g@.to_set().contains(v@[i as int]));
            }
            return true;
        }
        i += 1;
    }
    proof {
        assert forall|x: Label| v@.to_set().contains(x) implies !g@.to_set().contains(x) by {
            let q = choose|q: int| 0 <= q < v@.len() && v@[q] == x;
        }
    }
    false
}

/// The line with its groups changed, brought into normal form.
pub fn edit_line(line: &Line, op: &EditOp) -> (r: Line)
    requires
        line.wf(),
        edit_wf(*op),
    ensures
        r.wf(),
        normalized_from(r@, edited_parts(*op, line@)),
        degree_spec(r@) == degree_spec(line@),
{
    let mut parts: Vec<Part> = Vec::new();
    let mut i: usize = 0;
    while i < line.parts.len()
        invariant
            line.wf(),
            edit_wf(*op),
            i <= line@.len(),
            parts_view(parts@) == edited_parts(*op, line@).subrange(0, i as int),
            forall|q: int| 0 <= q < parts@.len() ==> (#[trigger] parts@[q]).group.wf(),
        decreases line@.len() - i,
    {
        assert(strictly_sorted(line@[i as int].1));
        assert(line@[i as int].1 == line.parts@[i as int].group@);
        let g = apply_edit(op, &line.parts[i].group);
        proof {
            lemma_sorted_of(g@);
            assert(g@ == sorted_of(edit_set(*op, line@[i as int].1)));
        }
        let ghost before = parts@;
        let np = Part { gtype: line.parts[i].gtype, group: g };
        parts.push(np);
        proof {
            assert(parts_view(parts@) =~= parts_view(before).push(np@));
            assert(np@ == edited_parts(*op, line@)[i as int]);
            assert forall|q: int| 0 <= q < parts@.len() implies (#[trigger] parts@[q]).group.wf() by {
                if q < before.len() {
                    assert(parts@[q] == before[q]);
                }
            }
        }
        i += 1;
        assert(parts_view(parts@) =~= edited_parts(*op, line@).subrange(0, i as int));
    }
    let ghost e = edited_parts(*op, line@);
    assert(e.subrange(0, e.len() as int) =~= e);
    assert(line@.subrange(0, line@.len() as int) =~= line@);
    proof {
        lemma_edited_degree(*op, line@, e.len() as int);
        assert forall|k: int| 0 <= k < e.len() implies strictly_sorted(#[trigger] e[k].1) by {
            assert(parts_view(parts@)[k] == e[k]);
            assert(parts@[k].group.wf());
        }
        assert(has_star_spec(e) == has_star_spec(line@)) by {
            if has_star_spec(e) {
                let k = choose|k: int| 0 <= k < e.len() && (#[trigger] e[k]).0 == GroupType::Star;
                assert(line@[k].0 == GroupType::Star);
            }
            if has_star_spec(line@) {
                let k = choose|k: int| 0 <= k < line@.len() && (#[trigger] line@[k]).0 == GroupType::Star;
                assert(e[k].0 == GroupType::Star);
            }
        }
        assert(parts_wf(e));
    }
    let mut r = Line { parts };
    assert(r@ == e);
    r.normalize();
    r
}

/// Changing the groups keeps the exponents.
proof fn lemma_edited_degree(op: EditOp, ps: Seq<PartV>, n: int)
    requires
        0 <= n <= ps.len(),
    ensures
        degree_without_star_spec(edited_parts(op, ps).subrange(0, n)) == degree_without_star_spec(ps.subrange(0, n)),
    decreases n,
{
    if n > 0 {
        lemma_edited_degree(op, ps, n - 1);
        assert(edited_parts(op, ps).subrange(0, n).drop_last() =~= edited_parts(op, ps).subrange(0, n - 1));
        assert(ps.subrange(0, n).drop_last() =~= ps.subrange(0, n - 1));
    } else {
        assert(edited_parts(op, ps).subrange(0, 0) =~= ps.subrange(0, 0));
    }
}

impl Constraint {
    /// The constraint with the change applied to every group; lines in which a
    /// group becomes empty go.
    pub fn edit_constraint(&self, op: &EditOp) -> (r: Constraint)
        requires
            self.wf(),
            edit_wf(*op),
        ensures
            r.wf(),
            r.degree == self.degree,
            !r.is_maximized,
            edited_lines(*op, self@, r@),
    {
        let mut lines: Vec<Line> = Vec::new();
        let mut k: usize = 0;
        let ghost ls = self@;
        while k < self.lines.len()
            invariant
                self.wf(),
                edit_wf(*op),
                ls == self@,
                k <= ls.len(),
                lines_wf(lines@, self.degree),
                edited_lines(*op, ls.subrange(0, k as int), lines_view(lines@)),
            decreases ls.len() - k,
        {
            let newline = edit_line(&self.lines[k], op);
            let ghost before = lines@;
            let ghost sub = ls.subrange(0, k + 1);
            proof {
                assert(sub.drop_last() =~= ls.subrange(0, k as int));
                assert(sub.last() == self.lines@[k as int]@);
            }
            let mut all = true;
            let mut i: usize = 0;
            while i < newline.parts.len()
                invariant
                    i <= newline@.len(),
                    all <==> forall|q: int| 0 <= q < i ==> (#[trigger] newline@[q]).1.len() > 0,
                decreases newline@.len() - i,
            {
                assert(newline@[i as int].1 == newline.parts@[i as int].group@);
                if newline.parts[i].group.is_empty() {
                    all = false;
                }
                i += 1;
            }
            if all {
                lines.push(newline);
                proof {
                    assert(lines_view(lines@) =~= lines_view(before).push(newline@));
                    assert(lines_view(lines@).drop_last() =~= lines_view(before));
                    assert(lines_view(lines@).last() == newline@);
                    assert forall|q: int| 0 <= q < lines@.len() implies (#[trigger] lines@[q]).wf() && degree_spec(lines@[q]@) == self.degree by {
                        if q < before.len() {
                            assert(lines@[q] == before[q]);
                        }
                    }
                }
            } else {
                proof {
                    let e = edited_parts(*op, sub.last());
                    assert forall|r: Seq<PartV>| #[trigger] normalized_from(r, e) implies !groups_nonempty(r) by {
                        lemma_normal_form_unique(r, newline@, e);
                        let q = choose|q: int| 0 <= q < newline@.len() && !((#[trigger] newline@[q]).1.len() > 0);
                    }
                }
            }
            k += 1;
        }
        assert(ls.subrange(0, ls.len() as int) =~= ls);
        Constraint { lines, is_maximized: false, degree: self.degree }
    }

    /// Where `from` occurs, adds `to`, and drops `from` if `remove_from`.
    pub fn relax(&self, from: Label, to: Label, remove_from: bool) -> (r: Constraint)
        requires
            self.wf(),
        ensures
            r.wf(),
            r.degree == self.degree,
            !r.is_maximized,
            edited_lines(EditOp::Relax { from, to, remove_from }, self@, r@),
    {
        self.edit_constraint(&EditOp::Relax { from, to, remove_from })
    }

    /// Where a label of `from` occurs, adds `to`, and drops the labels of
    /// `from` if `remove_from`.
    pub fn relax_group(&self, from: &Vec<Label>, to: Label, remove_from: bool) -> (r: Constraint)
        requires
            self.wf(),
        ensures
            r.wf(),
            r.degree == self.degree,
            !r.is_maximized,
            exists|g: Group| g@ == sorted_of(from@.to_set()) && edited_lines(EditOp::RelaxGroup { from: g, to, remove_from }, self@, #[trigger] r@),
    {
        let g = Group::from_labels(from);
        proof {
            lemma_sorted_of(g@);
        }
        let ghost gv = g@;
        let op = EditOp::RelaxGroup { from: g, to, remove_from };
        let r = self.edit_constraint(&op);
        proof {
            match op {
                EditOp::RelaxGroup { from: g2, .. } => {
                    assert(g2@ == sorted_of(from@.to_set()));
                },
                _ => {},
            }
        }
        r
    }

    /// Keeps only the labels of `keep`; lines in which a group becomes empty
    /// go.
    pub fn harden(&self, keep: &Group) -> (r: Constraint)
        requires
            self.wf(),
            keep.wf(),
        ensures
            r.wf(),
            r.degree == self.degree,
            !r.is_maximized,
            edited_lines(EditOp::Keep { keep: *keep }, self@, r@),
    {
        let k = keep.duplicate();
        let op = EditOp::Keep { keep: k };
        let r = self.edit_constraint(&op);
        proof {
            lemma_edit_keep_same(op, EditOp::Keep { keep: *keep }, self@, r@);
        }
        r
    }
}

/// Two changes that keep the same labels give the same lines.
proof fn lemma_edit_keep_same(a: EditOp, b: EditOp, ls: Seq<Seq<PartV>>, rs: Seq<Seq<PartV>>)
    requires
        a matches EditOp::Keep { keep: ka },
        b matches EditOp::Keep { keep: kb },
        a->keep@ == b->keep@,
        edited_lines(a, ls, rs),
    ensures
        edited_lines(b, ls, rs),
    decreases ls.len(),
{
    if ls.len() > 0 {
        assert(edited_parts(a, ls.last()) =~= edited_parts(b, ls.last()));
        if rs.len() > 0 && normalized_from(rs.last(), edited_parts(a, ls.last())) && groups_nonempty(rs.last())
            && edited_lines(a, ls.drop_last(), rs.drop_last()) {
            lemma_edit_keep_same(a, b, ls.drop_last(), rs.drop_last());
        } else {
            lemma_edit_keep_same(a, b, ls.drop_last(), rs);
        }
    }
}

/// The normal form of a sequence of parts is unique.
pub proof fn lemma_normal_form_unique(r1: Seq<PartV>, r2: Seq<PartV>, ps: Seq<PartV>)
    requires
        normalized_from(r1, ps),
        normalized_from(r2, ps),
    ensures
        r1 == r2,
{
    assert forall|x: PartV| r1.contains(x) implies r2.contains(x) by {
        lemma_in_normal_form(r1, r2, ps, x);
    }
    assert forall|x: PartV| r2.contains(x) implies r1.contains(x) by {
        lemma_in_normal_form(r2, r1, ps, x);
    }
    assert(r1.to_set() =~= r2.to_set());
    crate::order::lemma_parts_sorted_same_set(r1, r2);
}

/// A part of one normal form is a part of any other.
proof fn lemma_in_normal_form(r1: Seq<PartV>, r2: Seq<PartV>, ps: Seq<PartV>, x: PartV)
    requires
        normalized_from(r1, ps),
        normalized_from(r2, ps),
        r1.contains(x),
    ensures
        r2.contains(x),
{
    let i = choose|i: int| 0 <= i < r1.len() && r1[i] == x;
    if x.0 == GroupType::Star {
        assert(has_star_spec(r1));
        assert(has_star_spec(r2));
        let j = choose|j: int| 0 <= j < r2.len() && (#[trigger] r2[j]).0 == GroupType::Star;
        assert(r1[i].1.to_set() == r2[j].1.to_set());
        lemma_sorted_same_set(r1[i].1, r2[j].1);
        assert(r2[j] == x);
    } else {
        assert(r1[i].0 != GroupType::Star);
        crate::normalize::lemma_count_positive(ps, x.1);
        let j = choose|j: int| 0 <= j < ps.len() && (#[trigger] ps[j]).0 != GroupType::Star && ps[j].1 == x.1;
        assert(r2.contains((GroupType::Many(crate::line::count_of(ps, ps[j].1) as u8), ps[j].1)));
    }
}

/// `f` may be called on every group of the lines, and always gives a strictly
/// increasing group.
pub open spec fn edit_fn_ok<T: Fn(&Group) -> Group>(f: T, ls: Seq<Line>) -> bool {
    &&& forall|k: int, i: int| 0 <= k < ls.len() && 0 <= i < ls[k].parts@.len() ==> call_requires(f, (&(#[trigger] ls[k].parts@[i]).group,))
    &&& forall|g: &Group, r: Group| #[trigger] call_ensures(f, (g,), r) ==> r.wf()
}

/// The parts of `l` with the groups `gs` in place of theirs.
pub open spec fn regrouped(l: Line, gs: Seq<Group>) -> Seq<PartV> {
    Seq::new(gs.len(), |i: int| (l.parts@[i].gtype, gs[i]@))
}

/// `r` is the line `l` with each group replaced by what `f` gave on it, in
/// normal form.
pub open spec fn line_edited_by<T: Fn(&Group) -> Group>(f: T, l: Line, r: Seq<PartV>) -> bool {
    exists|gs: Seq<Group>| {
        &&& gs.len() == l.parts@.len()
        &&& forall|i: int| 0 <= i < gs.len() ==> call_ensures(f, (&l.parts@[i].group,), #[trigger] gs[i])
        &&& #[trigger] normalized_from(r, regrouped(l, gs))
    }
}

/// `rs` are, in order, the lines of `ls` edited by `f`, except those in which a
/// group became empty; `f` is called once per group, so a line that went is
/// one for which the groups that `f` gave left a group empty.
pub open spec fn lines_edited_by<T: Fn(&Group) -> Group>(f: T, ls: Seq<Line>, rs: Seq<Seq<PartV>>) -> bool
    decreases ls.len(),
{
    if ls.len() == 0 {
        rs.len() == 0
    } else {
        ||| rs.len() > 0 && line_edited_by(f, ls.last(), rs.last()) && groups_nonempty(rs.last())
            && lines_edited_by(f, ls.drop_last(), rs.drop_last())
        ||| (exists|r: Seq<PartV>| #[trigger] line_edited_by(f, ls.last(), r) && !groups_nonempty(r))
            && lines_edited_by(f, ls.drop_last(), rs)
    }
}

impl Part {
    /// The part with its group replaced by what `f` gives on it.
    pub fn edited<T: Fn(&Group) -> Group + Copy>(&self, f: T) -> (r: Part)
        requires
            call_requires(f, (&self.group,)),
        ensures
            r.gtype == self.gtype,
            call_ensures(f, (&self.group,), r.group),
    {
        Part { gtype: self.gtype, group: f(&self.group) }
    }
}

impl Line {
    /// The line with each group replaced by what `f` gives on it, in normal
    /// form.
    pub fn edited<T: Fn(&Group) -> Group + Copy>(&self, f: T) -> (r: Line)
        requires
            self.wf(),
            edit_fn_ok(f, seq![*self]),
        ensures
            r.wf(),
            degree_spec(r@) == degree_spec(self@),
            line_edited_by(f, *self, r@),
    {
        let mut parts: Vec<Part> = Vec::new();
        let mut i: usize = 0;
        let ghost mut gs: Seq<Group> = Seq::empty();
        while i < self.parts.len()
            invariant
                self.wf(),
                edit_fn_ok(f, seq![*self]),
                i <= self.parts@.len(),
                gs.len() == i,
                parts@.len() == i,
                forall|q: int| 0 <= q < i ==> call_ensures(f, (&self.parts@[q].group,), #[trigger] gs[q]),
                forall|q: int| 0 <= q < i ==> (#[trigger] parts@[q]).gtype == self.parts@[q].gtype && parts@[q].group == gs[q],
                forall|q: int| 0 <= q < i ==> (#[trigger] gs[q]).wf(),
            decreases self.parts@.len() - i,
        {
            assert(seq![*self][0] == *self);
            assert(call_requires(f, (&(seq![*self][0].parts@[i as int]).group,)));
            let p = self.parts[i].edited(f);
            proof {
                gs = gs.push(p.group);
            }
            parts.push(p);
            i += 1;
        }
        let ghost e = regrouped(*self, gs);
        let mut r = Line { parts };
        proof {
            assert(r@ =~= e);
            assert(self@.len() == e.len());
            assert forall|k: int| 0 <= k < e.len() implies strictly_sorted(#[trigger] e[k].1) by {
                assert(gs[k].wf());
            }
            lemma_same_exponents_degree(self@, e, e.len() as int);
            assert(self@.subrange(0, self@.len() as int) =~= self@);
            assert(e.subrange(0, e.len() as int) =~= e);
            assert(has_star_spec(e) == has_star_spec(self@)) by {
                if has_star_spec(e) {
                    let k = choose|k: int| 0 <= k < e.len() && (#[trigger] e[k]).0 == GroupType::Star;
                    assert(self@[k].0 == GroupType::Star);
                }
                if has_star_spec(self@) {
                    let k = choose|k: int| 0 <= k < self@.len() && (#[trigger] self@[k]).0 == GroupType::Star;
                    assert(e[k].0 == GroupType::Star);
                }
            }
        }
        r.normalize();
        assert(line_edited_by(f, *self, r@));
        r
    }
}

/// Two sequences of parts with the same exponents have the same degree.
proof fn lemma_same_exponents_degree(a: Seq<PartV>, b: Seq<PartV>, n: int)
    requires
        a.len() == b.len(),
        0 <= n <= a.len(),
        forall|k: int| 0 <= k < a.len() ==> (#[trigger] a[k]).0 == b[k].0,
    ensures
        degree_without_star_spec(a.subrange(0, n)) == degree_without_star_spec(b.subrange(0, n)),
    decreases n,
{
    if n > 0 {
        lemma_same_exponents_degree(a, b, n - 1);
        assert(a.subrange(0, n).drop_last() =~= a.subrange(0, n - 1));
        assert(b.subrange(0, n).drop_last() =~= b.subrange(0, n - 1));
    } else {
        assert(a.subrange(0, 0) =~= b.subrange(0, 0));
    }
}

impl Constraint {
    /// The constraint with each group of each line replaced by what `f` gives
    /// on it; lines in which a group becomes empty go.
    pub fn edited<T: Fn(&Group) -> Group + Copy>(&self, f: T) -> (r: Constraint)
        requires
            self.wf(),
            edit_fn_ok(f, self.lines@),
        ensures
            r.wf(),
            r.degree == self.degree,
            !r.is_maximized,
            lines_edited_by(f, self.lines@, r@),
    {
        let mut lines: Vec<Line> = Vec::new();
        let mut k: usize = 0;
        while k < self.lines.len()
            invariant
                self.wf(),
                edit_fn_ok(f, self.lines@),
                k <= self.lines@.len(),
                lines_wf(lines@, self.degree),
                lines_edited_by(f, self.lines@.subrange(0, k as int), lines_view(lines@)),
            decreases self.lines@.len() - k,
        {
            let line = &self.lines[k];
            proof {
                assert forall|a: int, i: int| 0 <= a < seq![*line].len() && 0 <= i < seq![*line][a].parts@.len()
                    implies call_requires(f, (&(#[trigger] seq![*line][a].parts@[i]).group,)) by {
                    assert(seq![*line][a] == self.lines@[k as int]);
                    assert(call_requires(f, (&(self.lines@[k as int].parts@[i]).group,)));
                }
            }
            let newline = line.edited(f);
            let ghost before = lines@;
            let ghost sub = self.lines@.subrange(0, k + 1);
            proof {
                assert(sub.drop_last() =~= self.lines@.subrange(0, k as int));
                assert(sub.last() == self.lines@[k as int]);
            }
            let mut all = true;
            let mut i: usize = 0;
            while i < newline.parts.len()
                invariant
                    i <= newline@.len(),
                    all <==> forall|q: int| 0 <= q < i ==> (#[trigger] newline@[q]).1.len() > 0,
                decreases newline@.len() - i,
            {
                assert(newline@[i as int].1 == newline.parts@[i as int].group@);
                if newline.parts[i].group.is_empty() {
                    all = false;
                }
                i += 1;
            }
            if all {
                lines.push(newline);
                proof {
                    assert(lines_view(lines@) =~= lines_view(before).push(newline@));
                    assert(lines_view(lines@).drop_last() =~= lines_view(before));
                    assert(lines_view(lines@).last() == newline@);
                    assert forall|q: int| 0 <= q < lines@.len() implies (#[trigger] lines@[q]).wf() && degree_spec(lines@[q]@) == self.degree by {
                        if q < before.len() {
                            assert(lines@[q] == before[q]);
                        }
                    }
                }
            } else {
                proof {
                    assert(line_edited_by(f, sub.last(), newline@));
                    let q = choose|q: int| 0 <= q < newline@.len() && !((#[trigger] newline@[q]).1.len() > 0);
                    assert(!groups_nonempty(newline@));
                }
            }
            k += 1;
        }
        assert(self.lines@.subrange(0, self.lines@.len() as int) =~= self.lines@);
        Constraint { lines, is_maximized: false, degree: self.degree }
    }
}

} // verus!
