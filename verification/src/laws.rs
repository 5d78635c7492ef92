use vstd::prelude::*;

use crate::choices::{all_choice_sets, minimal_sets};
use crate::constraint::{add_line_spec, covered_by, discard_spec, included, labels_spec, lemma_add_line_covers, not_included_by, Constraint};
use crate::group::{Group, GroupType, Label};
use crate::line::{count_of, has_star_spec, normalized_from, parts_wf, star_labels, PartV};
use crate::normalize::exponent_of;
use crate::maximize::lemma_add_line_from;
use crate::triviality::allowed_sets;
use crate::edit::{edit_set, edited_lines, edited_parts, groups_nonempty, lemma_normal_form_unique, EditOp};
use crate::harden::{harden_reached, harden_round, harden_start, hardened, restricted_to};
use crate::problem::Problem;
use crate::maximize::{joined_at, joins_covered, maximized_from, one_part_apart, pair_not_joinable};
use crate::relax::merges_done;

verus! {

/// After a line is added to a constraint, the constraint covers it: the line
/// is one of its lines, or one of its lines includes it.
pub proof fn law_added_line_is_covered(ls: Seq<Seq<PartV>>, n: Seq<PartV>)
    ensures
        add_line_spec(ls, n).contains(n) || exists|k: int| 0 <= k < add_line_spec(ls, n).len()
            && included(#[trigger] add_line_spec(ls, n)[k], n),
{
    let kept = not_included_by(ls, n);
    let r = add_line_spec(ls, n);
    if kept.len() != ls.len() || (forall|k: int| 0 <= k < kept.len() ==> !included(#[trigger] kept[k], n)) {
        assert(r == kept.push(n));
        assert(r[kept.len() as int] == n);
    } else {
        let k = choose|k: int| 0 <= k < kept.len() && included(#[trigger] kept[k], n);
        assert(r[k] == kept[k]);
    }
}

/// Keeping only the maximal lines keeps lines of the input and makes up
/// none.
pub proof fn law_discard_keeps_input_lines(ls: Seq<Seq<PartV>>)
    ensures
        forall|k: int| 0 <= k < discard_spec(ls).len() ==> ls.contains(#[trigger] discard_spec(ls)[k]),
    decreases ls.len(),
{
    if ls.len() > 0 {
        let p = ls.drop_last();
        law_discard_keeps_input_lines(p);
        lemma_add_line_from(discard_spec(p), ls.last());
        let r = discard_spec(ls);
        assert forall|k: int| 0 <= k < r.len() implies ls.contains(#[trigger] r[k]) by {
            if r[k] == ls.last() {
                assert(ls[ls.len() - 1] == ls.last());
            } else {
                assert(discard_spec(p).contains(r[k]));
                let q = choose|q: int| 0 <= q < discard_spec(p).len() && discard_spec(p)[q] == r[k];
                assert(p.contains(r[k]));
                let t = choose|t: int| 0 <= t < p.len() && p[t] == r[k];
                assert(ls[t] == p[t]);
            }
        }
    }
}

/// The minimal choice sets of a constraint are choice sets of it.
pub proof fn law_minimal_choice_sets_are_choice_sets(ls: Seq<Seq<PartV>>)
    ensures
        minimal_sets(all_choice_sets(ls)).subset_of(all_choice_sets(ls)),
{
}

/// The trivial sets are found among the sets examined, in their order.
pub proof fn law_trivial_sets_come_from_the_candidates(c: Constraint, t: GroupType, sets: Seq<Seq<Label>>)
    ensures
        allowed_sets(c, t, sets).len() <= sets.len(),
        forall|k: int| 0 <= k < allowed_sets(c, t, sets).len() ==> sets.contains(#[trigger] allowed_sets(c, t, sets)[k]),
    decreases sets.len(),
{
    if sets.len() > 0 {
        let p = sets.drop_last();
        law_trivial_sets_come_from_the_candidates(c, t, p);
        let r = allowed_sets(c, t, sets);
        let rp = allowed_sets(c, t, p);
        assert forall|k: int| 0 <= k < r.len() implies sets.contains(#[trigger] r[k]) by {
            if k < rp.len() {
                assert(r[k] == rp[k]);
                let q = choose|q: int| 0 <= q < p.len() && p[q] == rp[k];
                assert(sets[q] == p[q]);
            } else {
                assert(r[k] == sets.last());
                assert(sets[sets.len() - 1] == sets.last());
            }
        }
    }
}


/// The only part without a star whose group is `g` gives the total exponent
/// of `g`.
proof fn lemma_count_unique(s: Seq<PartV>, g: Seq<Label>, i: int)
    requires
        0 <= i < s.len(),
        s[i].0 != GroupType::Star,
        s[i].1 == g,
        forall|j: int| 0 <= j < s.len() && j != i && (#[trigger] s[j]).0 != GroupType::Star ==> s[j].1 != g,
    ensures
        count_of(s, g) == exponent_of(s[i]),
    decreases s.len(),
{
    let q = s.drop_last();
    if i == s.len() - 1 {
        assert forall|j: int| 0 <= j < q.len() && (#[trigger] q[j]).0 != GroupType::Star implies q[j].1 != g by {
            assert(q[j] == s[j]);
        }
        crate::normalize::lemma_count_zero(q, g);
        assert(s.last() == s[i]);
    } else {
        assert forall|j: int| 0 <= j < q.len() && j != i && (#[trigger] q[j]).0 != GroupType::Star implies q[j].1 != g by {
            assert(q[j] == s[j]);
        }
        assert(q[i] == s[i]);
        lemma_count_unique(q, g, i);
        assert(s.last() == s[s.len() - 1]);
    }
}

/// With a single starred part, the starred labels are its labels.
proof fn lemma_star_unique(s: Seq<PartV>, i: int)
    requires
        0 <= i < s.len(),
        s[i].0 == GroupType::Star,
        forall|j: int| 0 <= j < s.len() && j != i ==> (#[trigger] s[j]).0 != GroupType::Star,
    ensures
        star_labels(s) == s[i].1.to_set(),
    decreases s.len(),
{
    let q = s.drop_last();
    if i == s.len() - 1 {
        assert(!has_star_spec(q)) by {
            if has_star_spec(q) {
                let k = choose|k: int| 0 <= k < q.len() && (#[trigger] q[k]).0 == GroupType::Star;
                assert(s[k] == q[k]);
            }
        }
        crate::normalize::lemma_no_star_labels(q);
        assert(s.last() == s[i]);
        assert(star_labels(s) =~= s[i].1.to_set());
    } else {
        assert forall|j: int| 0 <= j < q.len() && j != i implies (#[trigger] q[j]).0 != GroupType::Star by {
            assert(q[j] == s[j]);
        }
        assert(q[i] == s[i]);
        lemma_star_unique(q, i);
        assert(s.last() == s[s.len() - 1]);
        assert(star_labels(s) =~= s[i].1.to_set());
    }
}

/// Normalizing a line in normal form gives it back: the normal form of the
/// normal form of a well-formed line is that normal form.
pub proof fn law_normal_form_is_stable(r: Seq<PartV>, ps: Seq<PartV>)
    requires
        normalized_from(r, ps),
        parts_wf(ps),
    ensures
        normalized_from(r, r),
        forall|r2: Seq<PartV>| #[trigger] normalized_from(r2, r) ==> r2 == r,
{
    assert forall|i: int, j: int| 0 <= i < r.len() && 0 <= j < r.len() && i != j
        && (#[trigger] r[i]).0 != GroupType::Star && (#[trigger] r[j]).0 != GroupType::Star implies r[i].1 != r[j].1 by {
        if r[i].1 == r[j].1 {
            assert(r[i] == r[j]);
            crate::order::lemma_part_lt_irreflexive(r[i]);
            if i < j {
                assert(crate::order::part_lt(r[i], r[j]));
            } else {
                assert(crate::order::part_lt(r[j], r[i]));
            }
        }
    }
    assert forall|i: int, j: int| 0 <= i < r.len() && 0 <= j < r.len() && i != j
        && (#[trigger] r[i]).0 == GroupType::Star implies (#[trigger] r[j]).0 != GroupType::Star by {
        if r[j].0 == GroupType::Star {
            crate::normalize::lemma_sorted_same_set(r[i].1, r[j].1);
            assert(r[i] == r[j]);
            crate::order::lemma_part_lt_irreflexive(r[i]);
            if i < j {
                assert(crate::order::part_lt(r[i], r[j]));
            } else {
                assert(crate::order::part_lt(r[j], r[i]));
            }
        }
    }
    assert(star_labels(r) == star_labels(ps)) by {
        if has_star_spec(r) {
            let i = choose|i: int| 0 <= i < r.len() && (#[trigger] r[i]).0 == GroupType::Star;
            lemma_star_unique(r, i);
        } else {
            crate::normalize::lemma_no_star_labels(r);
            crate::normalize::lemma_no_star_labels(ps);
        }
    }
    assert forall|i: int| 0 <= i < r.len() && (#[trigger] r[i]).0 != GroupType::Star implies
        count_of(r, r[i].1) == count_of(ps, r[i].1) && count_of(ps, r[i].1) <= 255 by {
        lemma_count_unique(r, r[i].1, i);
        crate::line::lemma_count_le_degree(ps, r[i].1);
    }
    assert forall|i: int| 0 <= i < r.len() && (#[trigger] r[i]).0 == GroupType::Star implies
        r[i].1.to_set() == star_labels(r) by {}
    assert forall|i: int| 0 <= i < r.len() && (#[trigger] r[i]).0 != GroupType::Star implies {
        &&& r[i].0 == GroupType::Many(count_of(r, r[i].1) as u8)
        &&& count_of(r, r[i].1) > 0
        &&& !crate::line::absorbed(r, r[i].1)
    } by {}
    assert forall|j: int| 0 <= j < r.len() && (#[trigger] r[j]).0 != GroupType::Star && count_of(r, r[j].1) > 0
        && !crate::line::absorbed(r, r[j].1) implies r.contains((GroupType::Many(count_of(r, r[j].1) as u8), r[j].1)) by {
        assert(r[j] == (GroupType::Many(count_of(r, r[j].1) as u8), r[j].1));
    }
    assert(normalized_from(r, r));
    assert forall|r2: Seq<PartV>| #[trigger] normalized_from(r2, r) implies r2 == r by {
        crate::edit::lemma_normal_form_unique(r2, r, r);
    }
}

/// A single merge done by `relax_many_merges` is the relaxation that
/// `relax_merge` does: the lines with `from` replaced by `to`, or the lines
/// unchanged when the two labels are the same.
pub proof fn law_single_merge(c: Seq<Seq<PartV>>, from: Label, to: Label, r: Seq<Seq<PartV>>)
    ensures
        merges_done(c, seq![(from, to)], r) <==> (if from == to {
            r == c
        } else {
            edited_lines(EditOp::Relax { from, to, remove_from: true }, c, r)
        }),
{
    let ms = seq![(from, to)];
    assert(ms[0] == (from, to));
    assert(ms.drop_first() =~= Seq::<(Label, Label)>::empty());
    assert(crate::relax::substitute(ms.drop_first(), from, to) =~= Seq::<(Label, Label)>::empty());
    let e = Seq::<(Label, Label)>::empty();
    assert(forall|x: Seq<Seq<PartV>>, y: Seq<Seq<PartV>>| merges_done(x, e, y) <==> y == x);
    if from == to {
        assert(merges_done(c, ms, r) == merges_done(c, e, r));
    } else {
        if edited_lines(EditOp::Relax { from, to, remove_from: true }, c, r) {
            assert(merges_done(r, e, r));
            assert(merges_done(c, ms, r));
        }
        if merges_done(c, ms, r) {
            let mid = choose|mid: Seq<Seq<PartV>>| #[trigger] edited_lines(EditOp::Relax { from, to, remove_from: true }, c, mid)
                && merges_done(mid, crate::relax::substitute(ms.drop_first(), from, to), r);
            assert(merges_done(mid, e, r));
            assert(r == mid);
        }
    }
}

/// Keeping only the maximal lines leaves every input line covered: a line
/// that stays includes it, through a chain of inclusions.
pub proof fn law_discard_covers_input_lines(ls: Seq<Seq<PartV>>)
    ensures
        forall|k: int| 0 <= k < ls.len() ==> covered_by(discard_spec(ls), #[trigger] ls[k]),
    decreases ls.len(),
{
    if ls.len() > 0 {
        let p = ls.drop_last();
        law_discard_covers_input_lines(p);
        lemma_add_line_covers(discard_spec(p), ls.last());
        assert forall|k: int| 0 <= k < ls.len() implies covered_by(discard_spec(ls), #[trigger] ls[k]) by {
            if k < ls.len() - 1 {
                assert(ls[k] == p[k]);
                assert(covered_by(discard_spec(p), p[k]));
            }
        }
    }
}

/// Two changes that act alike on every group give the same lines.
proof fn lemma_edited_lines_unique(a: EditOp, b: EditOp, ls: Seq<Seq<PartV>>, r1: Seq<Seq<PartV>>, r2: Seq<Seq<PartV>>)
    requires
        forall|g: Seq<Label>| #[trigger] edit_set(a, g) == edit_set(b, g),
        edited_lines(a, ls, r1),
        edited_lines(b, ls, r2),
    ensures
        r1 == r2,
    decreases ls.len(),
{
    if ls.len() == 0 {
        assert(r1 =~= r2);
    } else {
        let ea = edited_parts(a, ls.last());
        let eb = edited_parts(b, ls.last());
        assert(ea =~= eb) by {
            assert forall|i: int| 0 <= i < ea.len() implies ea[i] == eb[i] by {
                assert(edit_set(a, ls.last()[i].1) == edit_set(b, ls.last()[i].1));
            }
        }
        let first1 = r1.len() > 0 && normalized_from(r1.last(), ea) && groups_nonempty(r1.last())
            && edited_lines(a, ls.drop_last(), r1.drop_last());
        let first2 = r2.len() > 0 && normalized_from(r2.last(), eb) && groups_nonempty(r2.last())
            && edited_lines(b, ls.drop_last(), r2.drop_last());
        if first1 && first2 {
            lemma_normal_form_unique(r1.last(), r2.last(), ea);
            lemma_edited_lines_unique(a, b, ls.drop_last(), r1.drop_last(), r2.drop_last());
            assert(r1 =~= r1.drop_last().push(r1.last()));
            assert(r2 =~= r2.drop_last().push(r2.last()));
        } else if first1 {
            assert(normalized_from(r1.last(), eb));
        } else if first2 {
            assert(normalized_from(r2.last(), ea));
        } else {
            lemma_edited_lines_unique(a, b, ls.drop_last(), r1, r2);
        }
    }
}

/// The active side that hardening starts from is determined.
proof fn lemma_harden_start_unique(p: Problem, ap: bool, a1: Seq<Seq<PartV>>, a2: Seq<Seq<PartV>>)
    requires
        harden_start(p, ap, a1),
        harden_start(p, ap, a2),
    ensures
        a1 == a2,
{
    if ap {
        let q1 = choose|pairs: Vec<(Label, Label)>| pairs@ == p.diagram_indirect->Some_0@
            && #[trigger] edited_lines(EditOp::AddPredecessors { pairs }, p.active@, a1);
        let q2 = choose|pairs: Vec<(Label, Label)>| pairs@ == p.diagram_indirect->Some_0@
            && #[trigger] edited_lines(EditOp::AddPredecessors { pairs }, p.active@, a2);
        let o1 = EditOp::AddPredecessors { pairs: q1 };
        let o2 = EditOp::AddPredecessors { pairs: q2 };
        assert forall|g: Seq<Label>| #[trigger] edit_set(o1, g) == edit_set(o2, g) by {}
        lemma_edited_lines_unique(o1, o2, p.active@, a1, a2);
    }
}

/// Restricting to two groups with the same labels gives the same lines.
proof fn lemma_keep_unique(g1: Group, g2: Group, ls: Seq<Seq<PartV>>, r1: Seq<Seq<PartV>>, r2: Seq<Seq<PartV>>)
    requires
        g1@.to_set() == g2@.to_set(),
        edited_lines(EditOp::Keep { keep: g1 }, ls, r1),
        edited_lines(EditOp::Keep { keep: g2 }, ls, r2),
    ensures
        r1 == r2,
{
    let o1 = EditOp::Keep { keep: g1 };
    let o2 = EditOp::Keep { keep: g2 };
    assert forall|g: Seq<Label>| #[trigger] edit_set(o1, g) == edit_set(o2, g) by {}
    lemma_edited_lines_unique(o1, o2, ls, r1, r2);
}

/// A round of hardening has one outcome.
proof fn lemma_round_unique(a1: Seq<Seq<PartV>>, p1: Seq<Seq<PartV>>, prev: Set<Label>, n1: Set<Label>, n2: Set<Label>)
    requires
        harden_round(a1, p1, prev, n1),
        harden_round(a1, p1, prev, n2),
    ensures
        n1 == n2,
{
    let (g1, ra1, rp1) = choose|g: Group, ra: Seq<Seq<PartV>>, rp: Seq<Seq<PartV>>| g@.to_set() == prev
        && #[trigger] restricted_to(a1, p1, g, ra, rp) && n1 == labels_spec(ra).intersect(labels_spec(rp));
    let (g2, ra2, rp2) = choose|g: Group, ra: Seq<Seq<PartV>>, rp: Seq<Seq<PartV>>| g@.to_set() == prev
        && #[trigger] restricted_to(a1, p1, g, ra, rp) && n2 == labels_spec(ra).intersect(labels_spec(rp));
    lemma_keep_unique(g1, g2, a1, ra1, ra2);
    lemma_keep_unique(g1, g2, p1, rp1, rp2);
}

/// The labels reached after `n` rounds are determined.
proof fn lemma_reached_unique(a1: Seq<Seq<PartV>>, p1: Seq<Seq<PartV>>, keep: Set<Label>, k1: Set<Label>, k2: Set<Label>, n: nat)
    requires
        harden_reached(a1, p1, keep, k1, n),
        harden_reached(a1, p1, keep, k2, n),
    ensures
        k1 == k2,
    decreases n,
{
    if n > 0 {
        let m = (n - 1) as nat;
        let pr1 = choose|prev: Set<Label>| harden_reached(a1, p1, keep, prev, m) && #[trigger] harden_round(a1, p1, prev, k1);
        let pr2 = choose|prev: Set<Label>| harden_reached(a1, p1, keep, prev, m) && #[trigger] harden_round(a1, p1, prev, k2);
        lemma_reached_unique(a1, p1, keep, pr1, pr2, m);
        lemma_round_unique(a1, p1, pr1, k1, k2);
    }
}

/// Labels that a round leaves as they are stay reached in every later round.
proof fn lemma_reached_stays(a1: Seq<Seq<PartV>>, p1: Seq<Seq<PartV>>, keep: Set<Label>, k: Set<Label>, n: nat, m: nat)
    requires
        harden_reached(a1, p1, keep, k, n),
        harden_round(a1, p1, k, k),
        n <= m,
    ensures
        harden_reached(a1, p1, keep, k, m),
    decreases m - n,
{
    if m > n {
        lemma_reached_stays(a1, p1, keep, k, n, (m - 1) as nat);
    }
}

/// Hardening is determined by the problem, the labels to keep and whether
/// predecessors are added: any two results have the same active and passive
/// sides. In particular, removing a label gives the sides that keeping all the
/// other labels gives.
pub proof fn law_hardening_is_determined(p: Problem, keep: Set<Label>, ap: bool, r1: Problem, r2: Problem)
    requires
        hardened(p, keep, ap, r1),
        hardened(p, keep, ap, r2),
    ensures
        r1.active@ == r2.active@,
        r1.passive@ == r2.passive@,
{
    let p1 = p.passive@;
    let (a1, k1) = choose|a1: Seq<Seq<PartV>>, k: Group| harden_start(p, ap, a1)
        && k@.to_set() == labels_spec(r1.active@)
        && #[trigger] restricted_to(a1, p1, k, r1.active@, r1.passive@)
        && exists|n: nat| harden_reached(a1, p1, keep, k@.to_set(), n);
    let (a2, k2) = choose|a1: Seq<Seq<PartV>>, k: Group| harden_start(p, ap, a1)
        && k@.to_set() == labels_spec(r2.active@)
        && #[trigger] restricted_to(a1, p1, k, r2.active@, r2.passive@)
        && exists|n: nat| harden_reached(a1, p1, keep, k@.to_set(), n);
    lemma_harden_start_unique(p, ap, a1, a2);
    let s1 = k1@.to_set();
    let s2 = k2@.to_set();
    let n1 = choose|n: nat| harden_reached(a1, p1, keep, s1, n);
    let n2 = choose|n: nat| harden_reached(a2, p1, keep, s2, n);
    assert(labels_spec(r1.active@).intersect(labels_spec(r1.passive@)) =~= s1);
    assert(harden_round(a1, p1, s1, s1));
    assert(labels_spec(r2.active@).intersect(labels_spec(r2.passive@)) =~= s2);
    assert(harden_round(a1, p1, s2, s2));
    if n1 <= n2 {
        lemma_reached_stays(a1, p1, keep, s1, n1, n2);
        lemma_reached_unique(a1, p1, keep, s1, s2, n2);
    } else {
        lemma_reached_stays(a1, p1, keep, s2, n2, n1);
        lemma_reached_unique(a1, p1, keep, s1, s2, n1);
    }
    lemma_keep_unique(k1, k2, a1, r1.active@, r2.active@);
    lemma_keep_unique(k1, k2, p1, r1.passive@, r2.passive@);
}

/// Maximizing leaves no two lines one part apart whose join includes both
/// (a join allows only configurations of the two lines, so it would be a
/// larger allowed line), and the join of any two input lines, in normal
/// form, one part apart, when it includes both, is included by a line of
/// the result through a chain of inclusions.
pub proof fn law_maximize_joins(c: Constraint, m: Constraint)
    requires
        maximized_from(c, m),
        !c.is_maximized,
    ensures
        forall|x: int, y: int, i: int, j: int, jm: Seq<PartV>|
            #![trigger one_part_apart(m@[x], m@[y], i, j), normalized_from(jm, joined_at(m@[x], m@[y], i, j))]
            0 <= x < m@.len() && 0 <= y < m@.len() && x != y
            && one_part_apart(m@[x], m@[y], i, j) && normalized_from(jm, joined_at(m@[x], m@[y], i, j))
            ==> !(included(jm, m@[x]) && included(jm, m@[y])),
        forall|x: int, y: int, nx: Seq<PartV>, ny: Seq<PartV>, i: int, j: int, jm: Seq<PartV>|
            #![trigger normalized_from(nx, c@[x]), normalized_from(ny, c@[y]), one_part_apart(nx, ny, i, j), normalized_from(jm, joined_at(nx, ny, i, j))]
            0 <= x < c@.len() && 0 <= y < c@.len()
            && normalized_from(nx, c@[x]) && normalized_from(ny, c@[y])
            && one_part_apart(nx, ny, i, j) && normalized_from(jm, joined_at(nx, ny, i, j))
            && included(jm, nx) && included(jm, ny)
            ==> covered_by(m@, jm),
{
    assert forall|x: int, y: int, i: int, j: int, jm: Seq<PartV>|
        #![trigger one_part_apart(m@[x], m@[y], i, j), normalized_from(jm, joined_at(m@[x], m@[y], i, j))]
        0 <= x < m@.len() && 0 <= y < m@.len() && x != y
        && one_part_apart(m@[x], m@[y], i, j) && normalized_from(jm, joined_at(m@[x], m@[y], i, j))
        implies !(included(jm, m@[x]) && included(jm, m@[y])) by {
        assert(pair_not_joinable(m@[x], m@[y], i, j));
    }
    let ns = choose|ns: Seq<Seq<PartV>>| #![trigger joins_covered(ns, m@)] ns.len() == c@.len()
        && (forall|k: int| 0 <= k < ns.len() ==> normalized_from(#[trigger] ns[k], c@[k]))
        && joins_covered(ns, m@);
    assert forall|x: int, y: int, nx: Seq<PartV>, ny: Seq<PartV>, i: int, j: int, jm: Seq<PartV>|
        #![trigger normalized_from(nx, c@[x]), normalized_from(ny, c@[y]), one_part_apart(nx, ny, i, j), normalized_from(jm, joined_at(nx, ny, i, j))]
        0 <= x < c@.len() && 0 <= y < c@.len()
        && normalized_from(nx, c@[x]) && normalized_from(ny, c@[y])
        && one_part_apart(nx, ny, i, j) && normalized_from(jm, joined_at(nx, ny, i, j))
        && included(jm, nx) && included(jm, ny)
        implies covered_by(m@, jm) by {
        assert(normalized_from(ns[x], c@[x]));
        assert(normalized_from(ns[y], c@[y]));
        lemma_normal_form_unique(nx, ns[x], c@[x]);
        lemma_normal_form_unique(ny, ns[y], c@[y]);
        assert(one_part_apart(ns[x], ns[y], i, j));
    }
}

} // verus!
