use vstd::prelude::*;

use crate::choices::{choice_sets, line_groups, minimal_sets, sets_of, vecs_view};
use crate::clique::{adj_view, is_clique_of, Graph};
use crate::coloring::{allows_pair, bool_rows, joined, pair_line, upper_adjacency};
use crate::constraint::{constraint_includes, Constraint};
use crate::group::{copy_labels, strictly_sorted, Group, GroupType, Label};
use crate::line::{normalized_from, Degree, Line, PartV};
use crate::maximize::line_if_fits;
use crate::order::{labels_less, parts_view, seq_lt};
use crate::pairing::{colex_at, colex_lt, comb_next, copy_counts, digits_below, lemma_colex_total, lemma_rank_bound, lemma_rank_lt, pw, rank, total, within, Comb};
use crate::part::Part;
use crate::problem::Problem;

verus! {

/// How many occurrences of each part may go out: its exponent, at most `n`;
/// `n` for a starred part.
pub open spec fn capped(ps: Seq<PartV>, n: usize) -> Seq<usize> {
    Seq::new(ps.len(), |i: int| match ps[i].0 {
        GroupType::Many(x) => if (x as usize) < n { x as usize } else { n },
        GroupType::Star => n,
    })
}

/// The outgoing side of a split: each group with `c[i]` occurrences.
pub open spec fn outgoing_parts(ps: Seq<PartV>, c: Seq<usize>) -> Seq<PartV> {
    Seq::new(ps.len(), |i: int| (GroupType::Many(c[i] as u8), ps[i].1))
}

/// The incoming side of a split: the occurrences that do not go out; a
/// starred part stays starred.
pub open spec fn incoming_parts(ps: Seq<PartV>, c: Seq<usize>) -> Seq<PartV> {
    Seq::new(ps.len(), |i: int| match ps[i].0 {
        GroupType::Many(x) => (GroupType::Many((x - c[i]) as u8), ps[i].1),
        GroupType::Star => (GroupType::Star, ps[i].1),
    })
}

/// `(out, inc)` comes from splitting a line of `ls` into `n` outgoing
/// occurrences and the incoming rest: `out` is a minimal choice set of the
/// outgoing side and `inc` one of the incoming side, both in normal form.
pub open spec fn split_pair(ls: Seq<Seq<PartV>>, n: usize, out: Seq<Label>, inc: Seq<Label>) -> bool {
    exists|k: int, c: Seq<usize>, ro: Seq<PartV>, ri: Seq<PartV>|
        #![trigger normalized_from(ro, outgoing_parts(ls[k], c)), normalized_from(ri, incoming_parts(ls[k], c))]
        0 <= k < ls.len() && within(c, capped(ls[k], n)) && total(c) == n
        && normalized_from(ro, outgoing_parts(ls[k], c))
        && normalized_from(ri, incoming_parts(ls[k], c))
        && minimal_sets(choice_sets(line_groups(ro))).contains(out.to_set())
        && minimal_sets(choice_sets(line_groups(ri))).contains(inc.to_set())
}

/// The views of pairs of groups.
pub open spec fn group_pairs_view(v: Seq<(Group, Group)>) -> Seq<(Seq<Label>, Seq<Label>)> {
    v.map_values(|p: (Group, Group)| (p.0@, p.1@))
}

/// The views of pairs of label vectors.
pub open spec fn label_pairs_view(v: Seq<(Vec<Label>, Vec<Label>)>) -> Seq<(Seq<Label>, Seq<Label>)> {
    v.map_values(|p: (Vec<Label>, Vec<Label>)| (p.0@, p.1@))
}

/// Distinct pairs of strictly increasing groups, each from a split of a
/// line of `ls` with `n` outgoing occurrences.
pub open spec fn splits_ok(sp: Seq<(Seq<Label>, Seq<Label>)>, ls: Seq<Seq<PartV>>, n: usize) -> bool {
    &&& forall|k: int| 0 <= k < sp.len() ==> strictly_sorted((#[trigger] sp[k]).0) && strictly_sorted(sp[k].1)
        && split_pair(ls, n, sp[k].0, sp[k].1)
    &&& forall|a: int, b: int| 0 <= a < b < sp.len() ==> #[trigger] sp[a] != #[trigger] sp[b]
}

/// Adds the pair unless it is there.
fn add_pair(v: &mut Vec<(Group, Group)>, a: Group, b: Group)
    requires
        forall|x: int, y: int| 0 <= x < y < old(v)@.len() ==> #[trigger] group_pairs_view(old(v)@)[x] != #[trigger] group_pairs_view(old(v)@)[y],
    ensures
        forall|x: int, y: int| 0 <= x < y < final(v)@.len() ==> #[trigger] group_pairs_view(final(v)@)[x] != #[trigger] group_pairs_view(final(v)@)[y],
        group_pairs_view(final(v)@) == (if group_pairs_view(old(v)@).contains((a@, b@)) {
            group_pairs_view(old(v)@)
        } else {
            group_pairs_view(old(v)@).push((a@, b@))
        }),
        final(v)@.len() == old(v)@.len() + 1 ==> final(v)@[old(v)@.len() as int].0 == a && final(v)@[old(v)@.len() as int].1 == b,
        forall|x: int| 0 <= x < old(v)@.len() ==> #[trigger] final(v)@[x] == old(v)@[x],
        final(v)@.len() <= old(v)@.len() + 1,
{
    let ghost before = group_pairs_view(v@);
    let mut i: usize = 0;
    while i < v.len()
        invariant
            i <= v@.len(),
            before == group_pairs_view(v@),
            forall|x: int, y: int| 0 <= x < y < before.len() ==> #[trigger] before[x] != #[trigger] before[y],
            forall|q: int| 0 <= q < i ==> before[q] != (a@, b@),
        decreases v@.len() - i,
    {
        if v[i].0.same_as(&a) && v[i].1.same_as(&b) {
            assert(before[i as int] == (a@, b@));
            assert(before.contains((a@, b@)));
            return;
        }
        i += 1;
    }
    assert(!before.contains((a@, b@)));
    v.push((a, b));
    proof {
        let after = group_pairs_view(v@);
        assert(after =~= before.push((a@, b@)));
        assert forall|x: int, y: int| 0 <= x < y < after.len() implies #[trigger] after[x] != #[trigger] after[y] by {
            if y == before.len() {
                assert(after[x] == before[x]);
            } else {
                assert(after[x] == before[x] && after[y] == before[y]);
            }
        }
    }
}

/// Every pair of minimal choice sets of the two sides of the split of `line`
/// that sends `c[i]` occurrences of part `i` out is in `res`, each side
/// strictly increasing, the sides taken in normal form.
pub open spec fn split_covered(res: Seq<(Seq<Label>, Seq<Label>)>, line: Seq<PartV>, c: Seq<usize>) -> bool {
    exists|ro: Seq<PartV>, ri: Seq<PartV>|
        #![trigger normalized_from(ro, outgoing_parts(line, c)), normalized_from(ri, incoming_parts(line, c))]
        normalized_from(ro, outgoing_parts(line, c))
        && normalized_from(ri, incoming_parts(line, c))
        && forall|out: Seq<Label>, inc: Seq<Label>|
            #![trigger minimal_sets(choice_sets(line_groups(ro))).contains(out.to_set()), minimal_sets(choice_sets(line_groups(ri))).contains(inc.to_set())]
            strictly_sorted(out) && strictly_sorted(inc)
            && minimal_sets(choice_sets(line_groups(ro))).contains(out.to_set())
            && minimal_sets(choice_sets(line_groups(ri))).contains(inc.to_set())
            ==> res.contains((out, inc))
}

/// Every split of every line of `ls` with `n` outgoing occurrences is
/// covered by `sp`.
pub open spec fn splits_complete(sp: Seq<(Seq<Label>, Seq<Label>)>, ls: Seq<Seq<PartV>>, n: usize) -> bool {
    forall|k: int, c: Seq<usize>| 0 <= k < ls.len() && within(c, capped(ls[k], n)) && total(c) == n
        ==> #[trigger] split_covered(sp, ls[k], c)
}

/// What a sequence holds stays when it grows at the end.
proof fn lemma_prefix_contains(a: Seq<(Group, Group)>, b: Seq<(Group, Group)>, x: (Seq<Label>, Seq<Label>))
    requires
        a.len() <= b.len(),
        forall|i: int| 0 <= i < a.len() ==> #[trigger] b[i] == a[i],
        group_pairs_view(a).contains(x),
    ensures
        group_pairs_view(b).contains(x),
{
    let i = choose|i: int| 0 <= i < group_pairs_view(a).len() && group_pairs_view(a)[i] == x;
    assert(b[i] == a[i]);
    assert(group_pairs_view(b)[i] == x);
}

/// A split stays covered when the sequence grows at the end.
proof fn lemma_covered_grows(a: Seq<(Group, Group)>, b: Seq<(Group, Group)>, line: Seq<PartV>, c: Seq<usize>)
    requires
        a.len() <= b.len(),
        forall|i: int| 0 <= i < a.len() ==> #[trigger] b[i] == a[i],
        split_covered(group_pairs_view(a), line, c),
    ensures
        split_covered(group_pairs_view(b), line, c),
{
    let (ro, ri) = choose|ro: Seq<PartV>, ri: Seq<PartV>|
        #![trigger normalized_from(ro, outgoing_parts(line, c)), normalized_from(ri, incoming_parts(line, c))]
        normalized_from(ro, outgoing_parts(line, c))
        && normalized_from(ri, incoming_parts(line, c))
        && forall|out: Seq<Label>, inc: Seq<Label>|
            #![trigger minimal_sets(choice_sets(line_groups(ro))).contains(out.to_set()), minimal_sets(choice_sets(line_groups(ri))).contains(inc.to_set())]
            strictly_sorted(out) && strictly_sorted(inc)
            && minimal_sets(choice_sets(line_groups(ro))).contains(out.to_set())
            && minimal_sets(choice_sets(line_groups(ri))).contains(inc.to_set())
            ==> group_pairs_view(a).contains((out, inc));
    assert forall|out: Seq<Label>, inc: Seq<Label>|
        strictly_sorted(out) && strictly_sorted(inc)
        && minimal_sets(choice_sets(line_groups(ro))).contains(out.to_set())
        && minimal_sets(choice_sets(line_groups(ri))).contains(inc.to_set())
        implies group_pairs_view(b).contains((out, inc)) by {
        lemma_prefix_contains(a, b, (out, inc));
    }
}

/// The outgoing side of a split has the chosen number of occurrences, and
/// the incoming side no more than the line.
proof fn lemma_split_degrees(ps: Seq<PartV>, c: Seq<usize>, n: usize)
    requires
        within(c, capped(ps, n)),
        n <= 255,
    ensures
        crate::line::degree_without_star_spec(outgoing_parts(ps, c)) == total(c),
        crate::line::degree_without_star_spec(incoming_parts(ps, c)) <= crate::line::degree_without_star_spec(ps),
    decreases ps.len(),
{
    if ps.len() > 0 {
        let ps2 = ps.drop_last();
        let c2 = c.drop_last();
        assert(capped(ps2, n) =~= capped(ps, n).drop_last());
        assert(c[c.len() - 1] <= capped(ps, n)[ps.len() - 1]);
        lemma_split_degrees(ps2, c2, n);
        assert(outgoing_parts(ps, c).drop_last() =~= outgoing_parts(ps2, c2));
        assert(incoming_parts(ps, c).drop_last() =~= incoming_parts(ps2, c2));
    }
}

impl Constraint {
    /// The ways to split a node into `outdegree` outgoing edges and the
    /// incoming rest, as pairs of a minimal choice set of the outgoing side
    /// and one of the incoming side, each pair once.
    pub fn minimal_splits(&self, outdegree: usize) -> (r: Vec<(Group, Group)>)
        requires
            self.wf(),
            outdegree <= 255,
        ensures
            forall|k: int| 0 <= k < r@.len() ==> (#[trigger] r@[k]).0.wf() && r@[k].1.wf(),
            splits_ok(group_pairs_view(r@), self@, outdegree),
            splits_complete(group_pairs_view(r@), self@, outdegree),
    {
        let mut result: Vec<(Group, Group)> = Vec::new();
        let ghost ls = self@;
        let ghost b: nat = (outdegree + 1) as nat;
        let mut k: usize = 0;
        while k < self.lines.len()
            invariant
                k <= ls.len(),
                ls == self@,
                self.wf(),
                outdegree <= 255,
                b == outdegree + 1,
                forall|q: int| 0 <= q < result@.len() ==> (#[trigger] result@[q]).0.wf() && result@[q].1.wf(),
                splits_ok(group_pairs_view(result@), ls, outdegree),
                forall|kk: int, c: Seq<usize>| 0 <= kk < k && within(c, capped(ls[kk], outdegree)) && total(c) == outdegree
                    ==> #[trigger] split_covered(group_pairs_view(result@), ls[kk], c),
            decreases ls.len() - k,
        {
            let line = &self.lines[k];
            assert(line@ == ls[k as int]);
            let ghost cap = capped(line@, outdegree);
            let mut v: Vec<usize> = Vec::new();
            let mut i: usize = 0;
            while i < line.parts.len()
                invariant
                    i <= line@.len(),
                    v@ == capped(line@, outdegree).subrange(0, i as int),
                decreases line@.len() - i,
            {
                let x = match line.parts[i].gtype {
                    GroupType::Many(e) => if (e as usize) < outdegree { e as usize } else { outdegree },
                    GroupType::Star => outdegree,
                };
                v.push(x);
                i += 1;
                assert(v@ =~= capped(line@, outdegree).subrange(0, i as int));
            }
            assert(v@ =~= capped(line@, outdegree));
            let mut sum: usize = 0;
            let mut j: usize = 0;
            while j < v.len()
                invariant
                    j <= v@.len(),
                    sum == total(v@.subrange(0, j as int)),
                    sum <= 1_000_000,
                    forall|q: int| 0 <= q < v@.len() ==> #[trigger] v@[q] <= 255,
                ensures
                    sum == total(v@.subrange(0, j as int)),
                    j <= v@.len(),
                    j == v@.len() || sum > 1_000_000 - 255,
                decreases v@.len() - j,
            {
                proof {
                    assert(v@.subrange(0, j + 1).drop_last() =~= v@.subrange(0, j as int));
                }
                if sum > 1_000_000 - 255 {
                    break;
                }
                sum += v[j];
                j += 1;
            }
            let enough = sum >= outdegree;
            let ghost r_line = result@;
            if !enough {
                proof {
                    assert(v@.subrange(0, j as int) =~= v@);
                    assert forall|c: Seq<usize>| within(c, cap) implies total(c) != outdegree by {
                        crate::pairing::lemma_total_within(c, cap);
                    }
                }
            }
            if enough {
                proof {
                    lemma_total_prefix_le(v@, j as int);
                }
                let mut combs = Comb::new(outdegree, v);
                let mut going = true;
                proof {
                    assert forall|w: Seq<usize>| within(w, cap) && total(w) == outdegree implies !colex_lt(w, combs.state_view()) by {
                        if w != combs.state_view() {
                            crate::pairing::lemma_fill_least(w, cap, outdegree as nat);
                            crate::pairing::lemma_colex_asym(combs.state_view(), w);
                        }
                    }
                }
                while going
                    invariant
                        combs.wf(),
                        combs.max_view() == cap,
                        cap == capped(line@, outdegree),
                        total(combs.state_view()) == outdegree,
                        line@ == ls[k as int],
                        k < ls.len(),
                        ls == self@,
                        self.wf(),
                        line.wf(),
                        outdegree <= 255,
                        b == outdegree + 1,
                        forall|q: int| 0 <= q < result@.len() ==> (#[trigger] result@[q]).0.wf() && result@[q].1.wf(),
                        splits_ok(group_pairs_view(result@), ls, outdegree),
                        forall|kk: int, c: Seq<usize>| 0 <= kk < k && within(c, capped(ls[kk], outdegree)) && total(c) == outdegree
                            ==> #[trigger] split_covered(group_pairs_view(result@), ls[kk], c),
                        forall|w: Seq<usize>| #[trigger] within(w, cap) && total(w) == outdegree
                            && (colex_lt(w, combs.state_view()) || (!combs.is_first() && w == combs.state_view()))
                            ==> split_covered(group_pairs_view(result@), line@, w),
                        !going ==> !combs.is_first() && comb_next(combs.state_view(), cap) is None,
                    decreases
                        pw(b, line@.len() as nat) - rank(combs.state_view(), b) + (if combs.is_first() { 1int } else { 0int }),
                        (if going { 1int } else { 0int }),
                {
                    let ghost s0 = combs.state_view();
                    let ghost first0 = combs.is_first();
                    let ghost r0 = result@;
                    proof {
                        assert(digits_below(s0, b)) by {
                            assert forall|q: int| 0 <= q < s0.len() implies #[trigger] s0[q] < b by {
                                assert(s0[q] <= cap[q]);
                            }
                        }
                        lemma_rank_bound(s0, b);
                        assert(s0.len() == line@.len());
                    }
                    let st = match combs.next() {
                        Some(s) => copy_counts(s),
                        None => {
                            going = false;
                            Vec::new()
                        },
                    };
                    let ghost s1 = combs.state_view();
                    proof {
                        if !first0 && going {
                            crate::pairing::lemma_comb_next_least(s0, cap, s0);
                            let i = choose|i: int| colex_at(s0, s1, i);
                            assert(digits_below(s1, b)) by {
                                assert forall|q: int| 0 <= q < s1.len() implies #[trigger] s1[q] < b by {
                                    assert(s1[q] <= cap[q]);
                                }
                            }
                            lemma_rank_lt(s0, s1, b, i);
                            assert(rank(s1, b) > rank(s0, b));
                            lemma_rank_bound(s1, b);
                            assert(s1.len() == line@.len());
                        }
                        if first0 {
                            assert(s1 == s0);
                            assert(!combs.is_first());
                        }
                        if !going {
                            assert(s1 == s0);
                            assert(!first0);
                        }
                    }
                    if going {
                        self.add_split(line, &st, outdegree, &mut result);
                        proof {
                            let rv = group_pairs_view(result@);
                            assert forall|kk: int, c: Seq<usize>| 0 <= kk < k && within(c, capped(ls[kk], outdegree)) && total(c) == outdegree
                                implies #[trigger] split_covered(rv, ls[kk], c) by {
                                lemma_covered_grows(r0, result@, ls[kk], c);
                            }
                            assert forall|w: Seq<usize>| #[trigger] within(w, cap) && total(w) == outdegree
                                && (colex_lt(w, s1) || (!combs.is_first() && w == s1))
                                implies split_covered(rv, line@, w) by {
                                if w != s1 {
                                    if first0 {
                                        assert(colex_lt(w, s0));
                                    } else {
                                        crate::pairing::lemma_comb_next_least(s0, cap, w);
                                        lemma_colex_total(w, s0);
                                        if colex_lt(s0, w) {
                                            crate::pairing::lemma_colex_asym(w, s1);
                                        }
                                    }
                                    lemma_covered_grows(r0, result@, line@, w);
                                }
                            }
                        }
                    }
                }
                proof {
                    let s = combs.state_view();
                    assert forall|w: Seq<usize>| within(w, cap) && total(w) == outdegree
                        implies split_covered(group_pairs_view(result@), line@, w) by {
                        crate::pairing::lemma_comb_next_last(s, cap, w);
                        lemma_colex_total(w, s);
                    }
                }
            }
            proof {
                assert forall|kk: int, c: Seq<usize>| 0 <= kk < k + 1 && within(c, capped(ls[kk], outdegree)) && total(c) == outdegree
                    implies #[trigger] split_covered(group_pairs_view(result@), ls[kk], c) by {
                    if kk == k {
                        assert(ls[kk] == line@);
                    }
                }
            }
            k += 1;
        }
        result
    }

    /// Adds the pairs of minimal choice sets of the two sides of the split
    /// of `line` that sends `st[i]` occurrences of part `i` out.
    fn add_split(&self, line: &Line, st: &Vec<usize>, outdegree: usize, result: &mut Vec<(Group, Group)>)
        requires
            self.wf(),
            line.wf(),
            exists|k: int| 0 <= k < self@.len() && self@[k] == line@,
            within(st@, capped(line@, outdegree)),
            total(st@) == outdegree,
            outdegree <= 255,
            forall|q: int| 0 <= q < old(result)@.len() ==> (#[trigger] old(result)@[q]).0.wf() && old(result)@[q].1.wf(),
            splits_ok(group_pairs_view(old(result)@), self@, outdegree),
        ensures
            forall|q: int| 0 <= q < final(result)@.len() ==> (#[trigger] final(result)@[q]).0.wf() && final(result)@[q].1.wf(),
            splits_ok(group_pairs_view(final(result)@), self@, outdegree),
            old(result)@.len() <= final(result)@.len(),
            forall|q: int| 0 <= q < old(result)@.len() ==> #[trigger] final(result)@[q] == old(result)@[q],
            split_covered(group_pairs_view(final(result)@), line@, st@),
    {
        let ghost r0 = result@;
        let ghost lk = choose|k: int| 0 <= k < self@.len() && self@[k] == line@;
        let mut outp: Vec<Part> = Vec::new();
        let mut inp: Vec<Part> = Vec::new();
        let mut i: usize = 0;
        while i < line.parts.len()
            invariant
                i <= line@.len(),
                line.wf(),
                within(st@, capped(line@, outdegree)),
                outdegree <= 255,
                parts_view(outp@) == outgoing_parts(line@, st@).subrange(0, i as int),
                parts_view(inp@) == incoming_parts(line@, st@).subrange(0, i as int),
                outp@.len() == i,
                inp@.len() == i,
                forall|q: int| 0 <= q < outp@.len() ==> strictly_sorted(#[trigger] outp@[q].group@),
                forall|q: int| 0 <= q < inp@.len() ==> strictly_sorted(#[trigger] inp@[q].group@),
            decreases line@.len() - i,
        {
            let p = &line.parts[i];
            let c = st[i];
            let ghost idx = i as int;
            assert(c <= capped(line@, outdegree)[idx]);
            assert(p@ == line@[idx]);
            assert(strictly_sorted(line@[idx].1));
            let ghost ob = outp@;
            let ghost ib = inp@;
            outp.push(Part { gtype: GroupType::Many(c as u8), group: p.group.duplicate() });
            let g = match p.gtype {
                GroupType::Many(x) => GroupType::Many(x - (c as u8)),
                GroupType::Star => GroupType::Star,
            };
            inp.push(Part { gtype: g, group: p.group.duplicate() });
            i += 1;
            proof {
                assert(outp@.len() == idx + 1 && inp@.len() == idx + 1);
                assert(parts_view(outp@) =~= parts_view(ob).push(outp@[idx]@));
                assert(parts_view(inp@) =~= parts_view(ib).push(inp@[idx]@));
                assert(outgoing_parts(line@, st@).subrange(0, idx + 1) =~= outgoing_parts(line@, st@).subrange(0, idx).push(outp@[idx]@));
                assert(incoming_parts(line@, st@).subrange(0, idx + 1) =~= incoming_parts(line@, st@).subrange(0, idx).push(inp@[idx]@));
                assert forall|q: int| 0 <= q < outp@.len() implies strictly_sorted(#[trigger] outp@[q].group@) by {
                    if q < ob.len() {
                        assert(outp@[q] == ob[q]);
                    }
                }
                assert forall|q: int| 0 <= q < inp@.len() implies strictly_sorted(#[trigger] inp@[q].group@) by {
                    if q < ib.len() {
                        assert(inp@[q] == ib[q]);
                    }
                }
            }
        }
        proof {
            assert(outgoing_parts(line@, st@).subrange(0, line@.len() as int) =~= outgoing_parts(line@, st@));
            assert(incoming_parts(line@, st@).subrange(0, line@.len() as int) =~= incoming_parts(line@, st@));
        }
        proof {
            lemma_split_degrees(line@, st@, outdegree);
        }
        let outl = line_if_fits(outp);
        let inl = line_if_fits(inp);
        match (outl, inl) {
            (Some(mut o), Some(mut n)) => {
                o.normalize();
                n.normalize();
                let vo = o.minimal_sets_of_all_choices();
                let vi = n.minimal_sets_of_all_choices();
                let ghost ov = vecs_view(vo@);
                let ghost iv = vecs_view(vi@);
                let mut a: usize = 0;
                while a < vo.len()
                    invariant
                        a <= vo@.len(),
                        ov == vecs_view(vo@),
                        iv == vecs_view(vi@),
                        crate::choices::distinct_sorted(ov),
                        crate::choices::distinct_sorted(iv),
                        sets_of(ov) == minimal_sets(choice_sets(line_groups(o@))),
                        sets_of(iv) == minimal_sets(choice_sets(line_groups(n@))),
                        0 <= lk < self@.len(),
                        self@[lk] == line@,
                        within(st@, capped(line@, outdegree)),
                        total(st@) == outdegree,
                        normalized_from(o@, outgoing_parts(line@, st@)),
                        normalized_from(n@, incoming_parts(line@, st@)),
                        forall|q: int| 0 <= q < result@.len() ==> (#[trigger] result@[q]).0.wf() && result@[q].1.wf(),
                        splits_ok(group_pairs_view(result@), self@, outdegree),
                        r0.len() <= result@.len(),
                        forall|q: int| 0 <= q < r0.len() ==> #[trigger] result@[q] == r0[q],
                        forall|x: int, y: int| 0 <= x < a && 0 <= y < iv.len() ==> group_pairs_view(result@).contains((#[trigger] ov[x], #[trigger] iv[y])),
                    decreases vo@.len() - a,
                {
                    let mut b: usize = 0;
                    while b < vi.len()
                        invariant
                            a < vo@.len(),
                            b <= vi@.len(),
                            ov == vecs_view(vo@),
                            iv == vecs_view(vi@),
                            crate::choices::distinct_sorted(ov),
                            crate::choices::distinct_sorted(iv),
                            sets_of(ov) == minimal_sets(choice_sets(line_groups(o@))),
                            sets_of(iv) == minimal_sets(choice_sets(line_groups(n@))),
                            0 <= lk < self@.len(),
                            self@[lk] == line@,
                            within(st@, capped(line@, outdegree)),
                            total(st@) == outdegree,
                            normalized_from(o@, outgoing_parts(line@, st@)),
                            normalized_from(n@, incoming_parts(line@, st@)),
                            forall|q: int| 0 <= q < result@.len() ==> (#[trigger] result@[q]).0.wf() && result@[q].1.wf(),
                            splits_ok(group_pairs_view(result@), self@, outdegree),
                            r0.len() <= result@.len(),
                            forall|q: int| 0 <= q < r0.len() ==> #[trigger] result@[q] == r0[q],
                            forall|x: int, y: int| 0 <= x < a && 0 <= y < iv.len() ==> group_pairs_view(result@).contains((#[trigger] ov[x], #[trigger] iv[y])),
                            forall|y: int| 0 <= y < b ==> group_pairs_view(result@).contains((ov[a as int], #[trigger] iv[y])),
                        decreases vi@.len() - b,
                    {
                        let ga = Group(copy_labels(&vo[a]));
                        let gb = Group(copy_labels(&vi[b]));
                        proof {
                            assert(ga@ == ov[a as int] && gb@ == iv[b as int]);
                            assert(strictly_sorted(ov[a as int]) && strictly_sorted(iv[b as int]));
                            assert(sets_of(ov).contains(ov[a as int].to_set()));
                            assert(sets_of(iv).contains(iv[b as int].to_set()));
                            let ls = self@;
                            assert(split_pair(ls, outdegree, ga@, gb@)) by {
                                assert(ls[lk] == line@);
                            }
                        }
                        let ghost before = result@;
                        add_pair(result, ga, gb);
                        proof {
                            let rv = group_pairs_view(result@);
                            let bv = group_pairs_view(before);
                            assert forall|q: int| 0 <= q < result@.len() implies (#[trigger] result@[q]).0.wf() && result@[q].1.wf() by {
                                if q < before.len() {
                                    assert(result@[q] == before[q]);
                                }
                            }
                            assert forall|q: int| 0 <= q < rv.len() implies strictly_sorted((#[trigger] rv[q]).0) && strictly_sorted(rv[q].1)
                                && split_pair(self@, outdegree, rv[q].0, rv[q].1) by {
                                if q < bv.len() {
                                    assert(rv[q] == bv[q]);
                                } else {
                                    assert(rv[q] == (ga@, gb@));
                                }
                            }
                            assert(rv.contains((ga@, gb@))) by {
                                if bv.contains((ga@, gb@)) {
                                    let w = choose|w: int| 0 <= w < bv.len() && bv[w] == (ga@, gb@);
                                    assert(rv[w] == bv[w]);
                                } else {
                                    assert(rv[bv.len() as int] == (ga@, gb@));
                                }
                            }
                            assert forall|x: int, y: int| 0 <= x < a && 0 <= y < iv.len() implies rv.contains((#[trigger] ov[x], #[trigger] iv[y])) by {
                                lemma_prefix_contains(before, result@, (ov[x], iv[y]));
                            }
                            assert forall|y: int| 0 <= y < b + 1 implies rv.contains((ov[a as int], #[trigger] iv[y])) by {
                                if y < b {
                                    lemma_prefix_contains(before, result@, (ov[a as int], iv[y]));
                                }
                            }
                        }
                        b += 1;
                    }
                    a += 1;
                }
                proof {
                    let rv = group_pairs_view(result@);
                    assert forall|out: Seq<Label>, inc: Seq<Label>|
                        strictly_sorted(out) && strictly_sorted(inc)
                        && minimal_sets(choice_sets(line_groups(o@))).contains(out.to_set())
                        && minimal_sets(choice_sets(line_groups(n@))).contains(inc.to_set())
                        implies rv.contains((out, inc)) by {
                        assert(sets_of(ov).contains(out.to_set()));
                        assert(sets_of(iv).contains(inc.to_set()));
                        let x = choose|x: int| 0 <= x < ov.len() && #[trigger] ov[x].to_set() == out.to_set();
                        let y = choose|y: int| 0 <= y < iv.len() && #[trigger] iv[y].to_set() == inc.to_set();
                        crate::normalize::lemma_sorted_same_set(ov[x], out);
                        crate::normalize::lemma_sorted_same_set(iv[y], inc);
                        assert(rv.contains((ov[x], iv[y])));
                    }
                    assert(split_covered(rv, line@, st@));
                }
            },
            _ => {
                assert(false);
            },
        }
    }
}

/// The splits of `sp`, in order, whose two sides the constraint allows on
/// an edge going out from the first side into the second.
pub open spec fn allowed_splits(c: Constraint, sp: Seq<(Seq<Label>, Seq<Label>)>) -> Seq<(Seq<Label>, Seq<Label>)>
    decreases sp.len(),
{
    if sp.len() == 0 {
        Seq::empty()
    } else {
        let p = allowed_splits(c, sp.drop_last());
        if constraint_includes(c, pair_line(sp.last().0, sp.last().1)) {
            p.push(sp.last())
        } else {
            p
        }
    }
}

/// Two splits fit together on an edge: the outgoing side of each with the
/// incoming side of the other.
pub open spec fn splits_fit(c: Constraint, sp: Seq<(Seq<Label>, Seq<Label>)>, a: int, b: int) -> bool {
    &&& constraint_includes(c, pair_line(sp[a].0, sp[b].1))
    &&& constraint_includes(c, pair_line(sp[b].0, sp[a].1))
}

/// `idx` lists distinct positions of `sp`, any two of which fit together.
pub open spec fn fitting_clique(c: Constraint, sp: Seq<(Seq<Label>, Seq<Label>)>, idx: Seq<usize>) -> bool {
    &&& forall|k: int| 0 <= k < idx.len() ==> (#[trigger] idx[k]) < sp.len()
    &&& forall|k: int, l: int| 0 <= k < idx.len() && 0 <= l < idx.len() && k != l ==> #[trigger] idx[k] != #[trigger] idx[l]
        && splits_fit(c, sp, idx[k] as int, idx[l] as int)
}

/// The pairs `sp[x]` for the positions `x` of `idx`.
pub open spec fn picked_pairs(sp: Seq<(Seq<Label>, Seq<Label>)>, idx: Seq<usize>) -> Set<(Seq<Label>, Seq<Label>)> {
    Set::new(|s: (Seq<Label>, Seq<Label>)| exists|k: int| 0 <= k < idx.len() && s == sp[#[trigger] idx[k] as int])
}

/// The order of pairs of label sequences: by the first, then by the second.
pub open spec fn pair_lt(a: (Seq<Label>, Seq<Label>), b: (Seq<Label>, Seq<Label>)) -> bool {
    seq_lt(a.0, b.0) || (a.0 == b.0 && seq_lt(a.1, b.1))
}

/// Each pair comes before the next.
pub open spec fn pairs_sorted(v: Seq<(Seq<Label>, Seq<Label>)>) -> bool {
    forall|i: int, j: int| 0 <= i < j < v.len() ==> pair_lt(#[trigger] v[i], #[trigger] v[j])
}

proof fn lemma_pair_lt_transitive(a: (Seq<Label>, Seq<Label>), b: (Seq<Label>, Seq<Label>), c: (Seq<Label>, Seq<Label>))
    requires
        pair_lt(a, b),
        pair_lt(b, c),
    ensures
        pair_lt(a, c),
{
    if seq_lt(a.0, b.0) && seq_lt(b.0, c.0) {
        crate::order::lemma_seq_lt_transitive(a.0, b.0, c.0);
    } else if seq_lt(a.0, b.0) {
    } else if seq_lt(b.0, c.0) {
    } else {
        crate::order::lemma_seq_lt_transitive(a.1, b.1, c.1);
    }
}

proof fn lemma_pair_lt_total(a: (Seq<Label>, Seq<Label>), b: (Seq<Label>, Seq<Label>))
    requires
        a != b,
    ensures
        pair_lt(a, b) || pair_lt(b, a),
{
    crate::order::lemma_seq_lt_total(a.0, b.0);
    crate::order::lemma_seq_lt_total(a.1, b.1);
}

/// Compares two pairs of label vectors.
fn pair_less(a: &(Vec<Label>, Vec<Label>), b: &(Vec<Label>, Vec<Label>)) -> (r: bool)
    ensures
        r == pair_lt((a.0@, a.1@), (b.0@, b.1@)),
{
    if labels_less(&a.0, &b.0) {
        true
    } else if crate::group::labels_equal(&a.0, &b.0) {
        labels_less(&a.1, &b.1)
    } else {
        false
    }
}

/// Distinct pairs of label vectors in increasing order.
fn sort_pairs(v: Vec<(Vec<Label>, Vec<Label>)>) -> (r: Vec<(Vec<Label>, Vec<Label>)>)
    requires
        forall|i: int, j: int| 0 <= i < j < v@.len() ==> #[trigger] label_pairs_view(v@)[i] != #[trigger] label_pairs_view(v@)[j],
    ensures
        pairs_sorted(label_pairs_view(r@)),
        label_pairs_view(r@).to_set() == label_pairs_view(v@).to_set(),
{
    let ghost vv = label_pairs_view(v@);
    let mut r: Vec<(Vec<Label>, Vec<Label>)> = Vec::new();
    let mut src = v;
    let mut i: usize = 0;
    let n = src.len();
    let ghost orig = src@;
    while i < n
        invariant
            i <= n,
            n == vv.len(),
            src@ == orig,
            vv == label_pairs_view(orig),
            forall|a: int, b: int| 0 <= a < b < vv.len() ==> #[trigger] vv[a] != #[trigger] vv[b],
            pairs_sorted(label_pairs_view(r@)),
            label_pairs_view(r@).to_set() == vv.subrange(0, i as int).to_set(),
        decreases n - i,
    {
        let x = (copy_labels(&src[i].0), copy_labels(&src[i].1));
        let ghost xv = (x.0@, x.1@);
        assert(xv == vv[i as int]);
        let ghost before = label_pairs_view(r@);
        let mut k: usize = 0;
        while k < r.len() && pair_less(&r[k], &x)
            invariant
                k <= r@.len(),
                before == label_pairs_view(r@),
                xv == (x.0@, x.1@),
                forall|q: int| 0 <= q < k ==> pair_lt(#[trigger] before[q], xv),
            decreases r@.len() - k,
        {
            assert(before[k as int] == (r@[k as int].0@, r@[k as int].1@));
            k += 1;
        }
        proof {
            assert(!before.contains(xv)) by {
                if before.contains(xv) {
                    assert(before.to_set().contains(xv));
                    let q = choose|q: int| 0 <= q < i && vv.subrange(0, i as int)[q] == xv;
                }
            }
            if k < before.len() {
                assert(before[k as int] == (r@[k as int].0@, r@[k as int].1@));
                lemma_pair_lt_total(before[k as int], xv);
            }
        }
        r.insert(k, x);
        proof {
            let after = label_pairs_view(r@);
            assert(after =~= before.subrange(0, k as int).push(xv) + before.subrange(k as int, before.len() as int));
            assert forall|a: int, b: int| 0 <= a < b < after.len() implies pair_lt(#[trigger] after[a], #[trigger] after[b]) by {
                if a < k && b == k {
                } else if a < k && b > k {
                    assert(after[a] == before[a] && after[b] == before[b - 1]);
                    if b - 1 > a {
                        assert(pair_lt(before[a], before[b - 1]));
                    }
                } else if a == k {
                    assert(after[b] == before[b - 1]);
                    if b - 1 > k {
                        assert(pair_lt(before[k as int], before[b - 1]));
                        lemma_pair_lt_transitive(xv, before[k as int], before[b - 1]);
                    }
                } else if a > k {
                    assert(after[a] == before[a - 1] && after[b] == before[b - 1]);
                } else {
                    assert(after[a] == before[a] && after[b] == before[b]);
                }
            }
            assert(vv.subrange(0, i + 1) =~= vv.subrange(0, i as int).push(xv));
            assert forall|y: (Seq<Label>, Seq<Label>)| after.to_set().contains(y) <==> before.to_set().insert(xv).contains(y) by {
                if after.to_set().contains(y) {
                    let q = choose|q: int| 0 <= q < after.len() && after[q] == y;
                    if q < k {
                        assert(before[q] == y);
                    } else if q > k {
                        assert(before[q - 1] == y);
                    }
                }
                if before.to_set().contains(y) {
                    let q = choose|q: int| 0 <= q < before.len() && before[q] == y;
                    if q < k {
                        assert(after[q] == y);
                    } else {
                        assert(after[q + 1] == y);
                    }
                }
                if y == xv {
                    assert(after[k as int] == y);
                }
            }
            assert(after.to_set() =~= before.to_set().insert(xv));
            vv.subrange(0, i as int).lemma_push_to_set_commute(xv);
        }
        i += 1;
    }
    assert(vv.subrange(0, vv.len() as int) =~= vv);
    r
}

impl Problem {
    /// Finds the splits that make the problem solvable without communication
    /// when every node is given `outdegree` outgoing edges: the splits whose
    /// outgoing side and incoming side the passive constraint allows on one
    /// edge.
    pub fn compute_triviality_given_orientation(&mut self, outdegree: usize)
        requires
            old(self).orientation_trivial_sets is None,
            old(self).passive.degree == Degree::Finite(2),
            old(self).active.wf(),
            old(self).passive.wf(),
            outdegree <= 255,
        ensures
            final(self).active == old(self).active,
            final(self).passive == old(self).passive,
            *final(self) == (Problem { orientation_trivial_sets: final(self).orientation_trivial_sets, ..*old(self) }),
            final(self).orientation_trivial_sets matches Some(v) && exists|sp: Seq<(Seq<Label>, Seq<Label>)>|
                #[trigger] splits_ok(sp, old(self).active@, outdegree)
                && splits_complete(sp, old(self).active@, outdegree)
                && label_pairs_view(v@) == allowed_splits(old(self).passive, sp),
    {
        let splits = self.active.minimal_splits(outdegree);
        let ghost sp = group_pairs_view(splits@);
        let mut trivial: Vec<(Vec<Label>, Vec<Label>)> = Vec::new();
        let mut i: usize = 0;
        while i < splits.len()
            invariant
                i <= splits@.len(),
                sp == group_pairs_view(splits@),
                forall|q: int| 0 <= q < splits@.len() ==> (#[trigger] splits@[q]).0.wf() && splits@[q].1.wf(),
                self.passive.wf(),
                self.passive.degree == Degree::Finite(2),
                label_pairs_view(trivial@) == allowed_splits(self.passive, sp.subrange(0, i as int)),
            decreases splits@.len() - i,
        {
            let a = &splits[i].0;
            let b = &splits[i].1;
            assert(splits@[i as int].0.wf() && splits@[i as int].1.wf());
            let inc = allows_pair(&self.passive, &a.0, &b.0);
            proof {
                let sub = sp.subrange(0, i + 1);
                assert(sub.drop_last() =~= sp.subrange(0, i as int));
                assert(sub.last() == sp[i as int]);
                assert(sp[i as int] == (a@, b@));
            }
            if inc {
                let ghost before = label_pairs_view(trivial@);
                trivial.push((copy_labels(&a.0), copy_labels(&b.0)));
                assert(label_pairs_view(trivial@) =~= before.push((a@, b@)));
            }
            i += 1;
        }
        assert(sp.subrange(0, sp.len() as int) =~= sp);
        self.orientation_trivial_sets = Some(trivial);
    }

    /// Finds splits that make the problem solvable in no rounds given a
    /// proper coloring and an orientation with `outdegree` outgoing edges per
    /// node: a largest family of splits any two of which fit together on an
    /// edge in both directions, in increasing order. Without two such
    /// splits, the family is empty.
    pub fn compute_coloring_solvability_given_orientation(&mut self, outdegree: usize)
        requires
            old(self).orientation_coloring_sets is None,
            old(self).passive.degree == Degree::Finite(2),
            old(self).active.wf(),
            old(self).passive.wf(),
            outdegree <= 255,
        ensures
            final(self).active == old(self).active,
            final(self).passive == old(self).passive,
            *final(self) == (Problem { orientation_coloring_sets: final(self).orientation_coloring_sets, ..*old(self) }),
            final(self).orientation_coloring_sets is None ==> exists|sp: Seq<(Seq<Label>, Seq<Label>)>|
                #[trigger] splits_ok(sp, old(self).active@, outdegree)
                && splits_complete(sp, old(self).active@, outdegree)
                && sp.len() >= 0x4000_0000,
            final(self).orientation_coloring_sets matches Some(v) ==> exists|sp: Seq<(Seq<Label>, Seq<Label>)>, idx: Seq<usize>|
                #![trigger splits_ok(sp, old(self).active@, outdegree), picked_pairs(sp, idx)]
                splits_ok(sp, old(self).active@, outdegree)
                && splits_complete(sp, old(self).active@, outdegree)
                && fitting_clique(old(self).passive, sp, idx)
                && label_pairs_view(v@).to_set() == picked_pairs(sp, idx)
                && pairs_sorted(label_pairs_view(v@))
                && forall|idx2: Seq<usize>| #[trigger] fitting_clique(old(self).passive, sp, idx2) && idx2.len() >= 2
                    ==> idx2.len() <= idx.len(),
    {
        let splits = self.active.minimal_splits(outdegree);
        let ghost sp = group_pairs_view(splits@);
        let n = splits.len();
        let mut comp: Vec<Vec<bool>> = Vec::new();
        let mut any = false;
        let mut i: usize = 0;
        while i < n
            invariant
                i <= n,
                n == splits@.len(),
                sp == group_pairs_view(splits@),
                forall|q: int| 0 <= q < splits@.len() ==> (#[trigger] splits@[q]).0.wf() && splits@[q].1.wf(),
                self.passive.wf(),
                self.passive.degree == Degree::Finite(2),
                comp@.len() == i,
                !any ==> forall|p: int, q: int| 0 <= p < i && 0 <= q < n ==> !(#[trigger] comp@[p]@[q]),
                forall|p: int| 0 <= p < i ==> (#[trigger] comp@[p])@.len() == n,
                forall|p: int, q: int| 0 <= p < i && 0 <= q < n ==> (#[trigger] comp@[p]@[q] <==>
                    (p < q && splits_fit(self.passive, sp, p, q))),
            decreases n - i,
        {
            let mut row: Vec<bool> = Vec::new();
            let mut j: usize = 0;
            while j < n
                invariant
                    i < n,
                    j <= n,
                    n == splits@.len(),
                    sp == group_pairs_view(splits@),
                    forall|q: int| 0 <= q < splits@.len() ==> (#[trigger] splits@[q]).0.wf() && splits@[q].1.wf(),
                    self.passive.wf(),
                    self.passive.degree == Degree::Finite(2),
                    row@.len() == j,
                    comp@.len() == i,
                    !any ==> forall|p: int, q: int| 0 <= p < i && 0 <= q < n ==> !(#[trigger] comp@[p]@[q]),
                    !any ==> forall|q: int| 0 <= q < j ==> !(#[trigger] row@[q]),
                    forall|q: int| 0 <= q < j ==> (#[trigger] row@[q] <==> (i < q && splits_fit(self.passive, sp, i as int, q))),
                decreases n - j,
            {
                let e = if i < j {
                    assert(splits@[i as int].0.wf() && splits@[i as int].1.wf());
                    assert(splits@[j as int].0.wf() && splits@[j as int].1.wf());
                    assert(sp[i as int] == (splits@[i as int].0@, splits@[i as int].1@));
                    assert(sp[j as int] == (splits@[j as int].0@, splits@[j as int].1@));
                    allows_pair(&self.passive, &splits[i].0.0, &splits[j].1.0)
                        && allows_pair(&self.passive, &splits[j].0.0, &splits[i].1.0)
                } else {
                    false
                };
                if e {
                    any = true;
                }
                row.push(e);
                j += 1;
            }
            let ghost before = comp@;
            comp.push(row);
            proof {
                if !any {
                    assert forall|p: int, q: int| 0 <= p < i + 1 && 0 <= q < n implies !(#[trigger] comp@[p]@[q]) by {
                        if p < i {
                            assert(comp@[p] == before[p]);
                        }
                    }
                }
            }
            i += 1;
        }
        if !any {
            self.orientation_coloring_sets = Some(Vec::new());
            proof {
                let v = self.orientation_coloring_sets->Some_0;
                assert(label_pairs_view(v@).to_set() =~= picked_pairs(sp, Seq::<usize>::empty()));
                assert(fitting_clique(self.passive, sp, Seq::<usize>::empty()));
                assert forall|idx2: Seq<usize>| #[trigger] fitting_clique(self.passive, sp, idx2) && idx2.len() >= 2
                    implies idx2.len() <= 0 by {
                    let x = idx2[0] as int;
                    let y = idx2[1] as int;
                    assert(x != y && splits_fit(self.passive, sp, x, y));
                    if x < y {
                        assert(comp@[x]@[y]);
                    } else {
                        assert(splits_fit(self.passive, sp, y, x));
                        assert(comp@[y]@[x]);
                    }
                }
            }
            return;
        }
        if n >= 0x4000_0000 {
            assert(splits_ok(sp, self.active@, outdegree));
            return;
        }
        proof {
            assert forall|p: int| 0 <= p < n implies (#[trigger] bool_rows(comp@)[p]).len() == n by {
                assert(bool_rows(comp@)[p] == comp@[p]@);
            }
        }
        let adj = upper_adjacency(&comp);
        let ghost cv = bool_rows(comp@);
        proof {
            assert forall|a: int, i: int| 0 <= a < adj@.len() && 0 <= i < adj@[a]@.len() implies (#[trigger] adj@[a]@[i]) < adj@.len() by {
                assert(adj_view(adj@)[a] == adj@[a]@);
            }
        }
        let g = Graph::from_adj(adj);
        let clique = g.max_clique();
        let mut chosen: Vec<(Vec<Label>, Vec<Label>)> = Vec::new();
        let mut k: usize = 0;
        while k < clique.len()
            invariant
                k <= clique@.len(),
                is_clique_of(g.matrix(), clique@),
                g.wf(),
                g.size() == n,
                n == splits@.len(),
                sp == group_pairs_view(splits@),
                label_pairs_view(chosen@) == Seq::new(k as nat, |q: int| sp[clique@[q] as int]),
            decreases clique@.len() - k,
        {
            let x = clique[k];
            assert(clique@[k as int] < g.matrix().len());
            let ghost before = label_pairs_view(chosen@);
            assert(sp[x as int] == (splits@[x as int].0@, splits@[x as int].1@));
            chosen.push((copy_labels(&splits[x].0.0), copy_labels(&splits[x].1.0)));
            assert(label_pairs_view(chosen@) =~= before.push(sp[x as int]));
            assert(label_pairs_view(chosen@) =~= Seq::new((k + 1) as nat, |q: int| sp[clique@[q] as int]));
            k += 1;
        }
        proof {
            let cl = clique@;
            let chv = label_pairs_view(chosen@);
            assert forall|a: int, b: int| 0 <= a < b < chv.len() implies #[trigger] chv[a] != #[trigger] chv[b] by {
                assert(cl[a] != cl[b]);
                assert(chv[a] == sp[cl[a] as int] && chv[b] == sp[cl[b] as int]);
                if cl[a] < cl[b] {
                    assert(sp[cl[a] as int] != sp[cl[b] as int]);
                } else {
                    assert(sp[cl[b] as int] != sp[cl[a] as int]);
                }
            }
        }
        let sorted = sort_pairs(chosen);
        proof {
            let cl = clique@;
            let lists = g.lists();
            assert(lists == adj_view(adj@));
            assert forall|a: int, b: int| 0 <= a < cl.len() && 0 <= b < cl.len() && a != b implies #[trigger] cl[a] != #[trigger] cl[b]
                && splits_fit(self.passive, sp, cl[a] as int, cl[b] as int) by {
                assert(cl[a] != cl[b] && g.matrix()[cl[a] as int][cl[b] as int]);
                let x = cl[a] as int;
                let y = cl[b] as int;
                assert(crate::clique::adjacent_in(lists, x, y));
                assert(lists[x].contains(y as usize) || lists[y].contains(x as usize));
                assert(joined(cv, x, y) || joined(cv, y, x));
                assert(cv[x] == comp@[x]@ && cv[y] == comp@[y]@);
            }
            assert(fitting_clique(self.passive, sp, cl));
            assert forall|idx2: Seq<usize>| #[trigger] fitting_clique(self.passive, sp, idx2) && idx2.len() >= 2
                implies idx2.len() <= cl.len() by {
                assert forall|a: int| 0 <= a < idx2.len() implies (#[trigger] idx2[a]) < g.matrix().len() by {}
                assert forall|a: int, b: int| #![trigger idx2[a], idx2[b]] 0 <= a < idx2.len() && 0 <= b < idx2.len() && a != b
                    implies idx2[a] != idx2[b] && g.matrix()[idx2[a] as int][idx2[b] as int] by {
                    let x = idx2[a] as int;
                    let y = idx2[b] as int;
                    assert(x != y && splits_fit(self.passive, sp, x, y));
                    assert(splits_fit(self.passive, sp, y, x));
                    assert(cv[x] == comp@[x]@ && cv[y] == comp@[y]@);
                    assert(joined(cv, x, y));
                    assert(lists[x].contains(y as usize));
                    assert(crate::clique::adjacent_in(lists, x, y));
                }
                assert(is_clique_of(g.matrix(), idx2));
            }
            let chv = Seq::new(cl.len(), |q: int| sp[cl[q] as int]);
            assert forall|s: (Seq<Label>, Seq<Label>)| chv.to_set().contains(s) <==> picked_pairs(sp, cl).contains(s) by {
                if chv.to_set().contains(s) {
                    let q = choose|q: int| 0 <= q < chv.len() && chv[q] == s;
                    assert(s == sp[cl[q] as int]);
                }
                if picked_pairs(sp, cl).contains(s) {
                    let q = choose|q: int| 0 <= q < cl.len() && s == sp[#[trigger] cl[q] as int];
                    assert(chv[q] == s);
                }
            }
            assert(chv.to_set() =~= picked_pairs(sp, cl));
        }
        self.orientation_coloring_sets = Some(sorted);
    }
}

/// A prefix sums to at most the whole.
proof fn lemma_total_prefix_le(v: Seq<usize>, n: int)
    requires
        0 <= n <= v.len(),
    ensures
        total(v.subrange(0, n)) <= total(v),
    decreases v.len() - n,
{
    if n < v.len() {
        lemma_total_prefix_le(v, n + 1);
        assert(v.subrange(0, n + 1).drop_last() =~= v.subrange(0, n));
    } else {
        assert(v.subrange(0, n) =~= v);
    }
}

} // verus!
