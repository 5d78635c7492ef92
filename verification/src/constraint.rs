use vstd::prelude::*;
use std::collections::HashSet;

use crate::group::{Group, Label};
use crate::inclusion::{matching_spec, star_capacity_fits, superset_table};
use crate::line::{degree_spec, has_star_spec, Degree, Line, PartV};

verus! {

broadcast use vstd::std_specs::hash::group_hash_axioms;

/// The configurations allowed on one side of a problem: a set of lines of the
/// same degree.
#[derive(Clone, Debug, Eq, PartialEq, Ord, PartialOrd)]
pub struct Constraint {
    pub lines: Vec<Line>,
    pub is_maximized: bool,
    pub degree: Degree,
}

/// The views of a sequence of lines.
pub open spec fn lines_view(v: Seq<Line>) -> Seq<Seq<PartV>> {
    v.map_values(|l: Line| l@)
}

impl View for Constraint {
    type V = Seq<Seq<PartV>>;

    open spec fn view(&self) -> Seq<Seq<PartV>> {
        lines_view(self.lines@)
    }
}

/// Every line is well formed and has the degree of the constraint.
pub open spec fn lines_wf(ls: Seq<Line>, d: Degree) -> bool {
    forall|k: int| 0 <= k < ls.len() ==> (#[trigger] ls[k]).wf() && degree_spec(ls[k]@) == d
}

impl Constraint {
    pub open spec fn wf(&self) -> bool {
        lines_wf(self.lines@, self.degree)
    }
}

/// Line `a` includes line `b`: the groups of `b` can be matched into those of
/// `a`, each into one that holds all its labels.
pub open spec fn included(a: Seq<PartV>, b: Seq<PartV>) -> bool {
    matching_spec(a, b, superset_table(a, b)) is Some
}

/// The lines of `ls` that `n` does not include, in order.
pub open spec fn not_included_by(ls: Seq<Seq<PartV>>, n: Seq<PartV>) -> Seq<Seq<PartV>>
    decreases ls.len(),
{
    if ls.len() == 0 {
        Seq::empty()
    } else if included(n, ls.last()) {
        not_included_by(ls.drop_last(), n)
    } else {
        not_included_by(ls.drop_last(), n).push(ls.last())
    }
}

/// Adding `n` to the lines `ls`: the lines that `n` includes go, and `n` is
/// added unless a remaining line includes it (when nothing went).
pub open spec fn add_line_spec(ls: Seq<Seq<PartV>>, n: Seq<PartV>) -> Seq<Seq<PartV>> {
    let kept = not_included_by(ls, n);
    if kept.len() != ls.len() || (forall|k: int| 0 <= k < kept.len() ==> !included(#[trigger] kept[k], n)) {
        kept.push(n)
    } else {
        kept
    }
}

/// Line `x` is included by a line of `ls` through a chain of at most `n`
/// inclusions: it is a line of `ls`, or a line that includes it is, in this
/// sense, within `n - 1`.
pub open spec fn chain_included(ls: Seq<Seq<PartV>>, x: Seq<PartV>, n: nat) -> bool
    decreases n,
{
    ls.contains(x) || (n > 0 && exists|y: Seq<PartV>| #[trigger] included(y, x) && chain_included(ls, y, (n - 1) as nat))
}

/// Line `x` is included by a line of `ls` through some chain of inclusions.
pub open spec fn covered_by(ls: Seq<Seq<PartV>>, x: Seq<PartV>) -> bool {
    exists|n: nat| #[trigger] chain_included(ls, x, n)
}

/// Every line of `ls` that `n` does not include stays.
proof fn lemma_not_included_keeps(ls: Seq<Seq<PartV>>, n: Seq<PartV>)
    ensures
        forall|i: int| 0 <= i < ls.len() ==> included(n, #[trigger] ls[i]) || not_included_by(ls, n).contains(ls[i]),
        not_included_by(ls, n).len() <= ls.len(),
        not_included_by(ls, n).len() == ls.len() ==> forall|i: int| 0 <= i < ls.len() ==> !included(n, #[trigger] ls[i]),
    decreases ls.len(),
{
    if ls.len() > 0 {
        let p = ls.drop_last();
        lemma_not_included_keeps(p, n);
        let kp = not_included_by(p, n);
        let kept = not_included_by(ls, n);
        assert forall|i: int| 0 <= i < ls.len() implies included(n, #[trigger] ls[i]) || kept.contains(ls[i]) by {
            if i < ls.len() - 1 {
                assert(ls[i] == p[i]);
                if !included(n, p[i]) {
                    let t = choose|t: int| 0 <= t < kp.len() && kp[t] == p[i];
                    assert(kept[t] == kp[t]);
                }
            } else if !included(n, ls[i]) {
                assert(kept[kept.len() - 1] == ls.last());
            }
        }
        if kept.len() == ls.len() {
            assert(!included(n, ls.last()));
            assert forall|i: int| 0 <= i < ls.len() implies !included(n, #[trigger] ls[i]) by {
                if i < ls.len() - 1 {
                    assert(ls[i] == p[i]);
                }
            }
        }
    }
}

/// Adding a line keeps every line that was there, or the new line includes
/// it; and the new line stays, or a line that stays includes it.
proof fn lemma_add_line_chain(ls: Seq<Seq<PartV>>, n: Seq<PartV>)
    ensures
        forall|z: Seq<PartV>| ls.contains(z) ==> #[trigger] chain_included(add_line_spec(ls, n), z, 1),
        chain_included(add_line_spec(ls, n), n, 1),
{
    lemma_not_included_keeps(ls, n);
    let kept = not_included_by(ls, n);
    let r = add_line_spec(ls, n);
    assert forall|k: int| 0 <= k < kept.len() implies r.contains(#[trigger] kept[k]) by {
        assert(r[k] == kept[k]);
    }
    assert forall|z: Seq<PartV>| ls.contains(z) implies #[trigger] chain_included(r, z, 1) by {
        let i = choose|i: int| 0 <= i < ls.len() && ls[i] == z;
        if !kept.contains(z) {
            assert(included(n, ls[i]));
            assert(kept.len() != ls.len());
            assert(r[r.len() - 1] == n);
            assert(chain_included(r, n, 0));
        }
    }
    if r.contains(n) {
        assert(chain_included(r, n, 1));
    } else {
        if kept.len() != ls.len() || (forall|k: int| 0 <= k < kept.len() ==> !included(#[trigger] kept[k], n)) {
            assert(r == kept.push(n));
            assert(r[r.len() - 1] == n);
        }
        let k = choose|k: int| 0 <= k < kept.len() && included(#[trigger] kept[k], n);
        assert(r.contains(kept[k]));
        assert(chain_included(r, kept[k], 0));
    }
}

/// A chain into `ls` continues into `ls2` when every line of `ls` is covered
/// by `ls2`.
proof fn lemma_chain_transport(ls: Seq<Seq<PartV>>, ls2: Seq<Seq<PartV>>, x: Seq<PartV>, k: nat)
    requires
        forall|z: Seq<PartV>| ls.contains(z) ==> #[trigger] covered_by(ls2, z),
        chain_included(ls, x, k),
    ensures
        covered_by(ls2, x),
    decreases k,
{
    if ls.contains(x) {
        assert(covered_by(ls2, x));
    } else {
        let y = choose|y: Seq<PartV>| #[trigger] included(y, x) && chain_included(ls, y, (k - 1) as nat);
        lemma_chain_transport(ls, ls2, y, (k - 1) as nat);
        let m = choose|m: nat| #[trigger] chain_included(ls2, y, m);
        assert(chain_included(ls2, x, m + 1));
    }
}

/// Adding a line keeps every covered line covered, and covers the new line.
pub proof fn lemma_add_line_covers(ls: Seq<Seq<PartV>>, n: Seq<PartV>)
    ensures
        forall|x: Seq<PartV>| #[trigger] covered_by(ls, x) ==> covered_by(add_line_spec(ls, n), x),
        covered_by(add_line_spec(ls, n), n),
{
    let r = add_line_spec(ls, n);
    lemma_add_line_chain(ls, n);
    assert forall|z: Seq<PartV>| ls.contains(z) implies #[trigger] covered_by(r, z) by {
        assert(chain_included(r, z, 1));
    }
    assert forall|x: Seq<PartV>| #[trigger] covered_by(ls, x) implies covered_by(r, x) by {
        let k = choose|k: nat| #[trigger] chain_included(ls, x, k);
        lemma_chain_transport(ls, r, x, k);
    }
    assert(chain_included(r, n, 1));
}

/// Adding a line makes the constraint at most one line longer.
pub proof fn lemma_add_line_len(ls: Seq<Seq<PartV>>, n: Seq<PartV>)
    ensures
        add_line_spec(ls, n).len() <= ls.len() + 1,
{
    lemma_not_included_keeps(ls, n);
}

/// When every line of `ls` is covered by `ls2`, whatever `ls` covers, `ls2`
/// covers.
pub proof fn lemma_covers_moves(ls: Seq<Seq<PartV>>, ls2: Seq<Seq<PartV>>)
    requires
        forall|z: Seq<PartV>| ls.contains(z) ==> #[trigger] covered_by(ls2, z),
    ensures
        forall|x: Seq<PartV>| #[trigger] covered_by(ls, x) ==> covered_by(ls2, x),
{
    assert forall|x: Seq<PartV>| #[trigger] covered_by(ls, x) implies covered_by(ls2, x) by {
        let k = choose|k: nat| #[trigger] chain_included(ls, x, k);
        lemma_chain_transport(ls, ls2, x, k);
    }
}

/// Adding the lines of `ls` one after the other to an empty constraint.
pub open spec fn discard_spec(ls: Seq<Seq<PartV>>) -> Seq<Seq<PartV>>
    decreases ls.len(),
{
    if ls.len() == 0 {
        Seq::empty()
    } else {
        add_line_spec(discard_spec(ls.drop_last()), ls.last())
    }
}

/// Two lines of the same degree can be compared.
pub proof fn lemma_same_degree_fits(a: Seq<PartV>, b: Seq<PartV>)
    requires
        degree_spec(a) == degree_spec(b),
    ensures
        star_capacity_fits(a, b),
{
}

/// The groups of a sequence of lines, line after line.
pub open spec fn groups_spec(ls: Seq<Seq<PartV>>) -> Seq<Seq<Label>>
    decreases ls.len(),
{
    if ls.len() == 0 {
        Seq::empty()
    } else {
        groups_spec(ls.drop_last()) + ls.last().map_values(|p: PartV| p.1)
    }
}

/// The labels that occur in some group of the lines.
pub open spec fn labels_spec(ls: Seq<Seq<PartV>>) -> Set<Label> {
    Set::new(|l: Label| exists|k: int, i: int| 0 <= k < ls.len() && 0 <= i < ls[k].len() && (#[trigger] ls[k][i]).1.contains(l))
}

impl Line {
    /// The groups of the line, in order.
    pub fn groups(&self) -> (r: Vec<Group>)
        ensures
            r@.map_values(|g: Group| g@) == self@.map_values(|p: PartV| p.1),
    {
        let mut r: Vec<Group> = Vec::new();
        let mut i: usize = 0;
        while i < self.parts.len()
            invariant
                i <= self@.len(),
                r@.map_values(|g: Group| g@) == self@.subrange(0, i as int).map_values(|p: PartV| p.1),
            decreases self@.len() - i,
        {
            let g = self.parts[i].group.duplicate();
            let ghost before = r@;
            r.push(g);
            proof {
                assert(r@ == before.push(g));
                assert(self@.subrange(0, i + 1) =~= self@.subrange(0, i as int).push(self@[i as int]));
                assert(r@.map_values(|g: Group| g@) =~= before.map_values(|g: Group| g@).push(g@));
            }
            i += 1;
        }
        assert(self@.subrange(0, self@.len() as int) =~= self@);
        r
    }
}

impl Constraint {
    /// Adds `newline`: the lines that it includes are removed, and it is added
    /// unless a line that stays includes it.
    pub fn add_line_and_discard_non_maximal(&mut self, newline: Line)
        requires
            old(self).wf(),
            newline.wf(),
            degree_spec(newline@) == old(self).degree,
        ensures
            final(self).wf(),
            final(self)@ == add_line_spec(old(self)@, newline@),
            final(self).degree == old(self).degree,
            !final(self).is_maximized,
    {
        self.is_maximized = false;
        let ghost ls = self@;
        let ghost d = self.degree;
        let mut kept: Vec<Line> = Vec::new();
        let mut i: usize = 0;
        while i < self.lines.len()
            invariant
                self.wf(),
                self@ == ls,
                self.degree == d,
                newline.wf(),
                degree_spec(newline@) == d,
                i <= self.lines@.len(),
                lines_wf(kept@, d),
                lines_view(kept@) == not_included_by(ls.subrange(0, i as int), newline@),
            decreases self.lines@.len() - i,
        {
            proof {
                lemma_same_degree_fits(newline@, self.lines@[i as int]@);
                assert(ls.subrange(0, i + 1).drop_last() =~= ls.subrange(0, i as int));
                assert(ls.subrange(0, i + 1).last() == self.lines@[i as int]@);
            }
            let inc = newline.includes(&self.lines[i]);
            if !inc {
                let l = self.lines[i].duplicate();
                let ghost before = kept@;
                kept.push(l);
                proof {
                    assert(lines_view(kept@) =~= lines_view(before).push(l@));
                }
            }
            i += 1;
        }
        assert(ls.subrange(0, ls.len() as int) =~= ls);
        let changed = kept.len() != self.lines.len();
        let mut add = changed;
        if !changed {
            let mut all_miss = true;
            let mut j: usize = 0;
            while j < kept.len()
                invariant
                    lines_wf(kept@, d),
                    newline.wf(),
                    degree_spec(newline@) == d,
                    j <= kept@.len(),
                    all_miss <==> forall|k: int| 0 <= k < j ==> !included(#[trigger] lines_view(kept@)[k], newline@),
                decreases kept@.len() - j,
            {
                proof {
                    lemma_same_degree_fits(kept@[j as int]@, newline@);
                    assert(lines_view(kept@)[j as int] == kept@[j as int]@);
                }
                if kept[j].includes(&newline) {
                    all_miss = false;
                }
                j += 1;
            }
            add = all_miss;
        }
        if add {
            let ghost before = kept@;
            kept.push(newline);
            proof {
                assert(lines_view(kept@) =~= lines_view(before).push(newline@));
            }
        }
        self.lines = kept;
    }

    /// Keeps only the maximal lines, adding the lines one after the other.
    pub fn discard_non_maximal_lines(&mut self)
        requires
            old(self).wf(),
        ensures
            final(self).wf(),
            final(self)@ == discard_spec(old(self)@),
            final(self).degree == old(self).degree,
            !final(self).is_maximized,
    {
        self.is_maximized = false;
        let mut lines: Vec<Line> = Vec::new();
        std::mem::swap(&mut lines, &mut self.lines);
        let ghost ls = lines_view(lines@);
        let ghost d = self.degree;
        assert(discard_spec(ls.subrange(0, 0)) =~= self@);
        let mut i: usize = 0;
        while i < lines.len()
            invariant
                lines_wf(lines@, self.degree),
                self.degree == d,
                ls == lines_view(lines@),
                self.wf(),
                !self.is_maximized,
                i <= lines@.len(),
                self@ == discard_spec(ls.subrange(0, i as int)),
            decreases lines@.len() - i,
        {
            let l = lines[i].duplicate();
            proof {
                assert(ls.subrange(0, i + 1).drop_last() =~= ls.subrange(0, i as int));
                assert(ls.subrange(0, i + 1).last() == l@);
            }
            self.add_line_and_discard_non_maximal(l);
            i += 1;
        }
        assert(ls.subrange(0, ls.len() as int) =~= ls);
    }

    /// The groups of all lines, line after line.
    pub fn groups(&self) -> (r: Vec<Group>)
        ensures
            r@.map_values(|g: Group| g@) == groups_spec(self@),
    {
        let mut r: Vec<Group> = Vec::new();
        let mut k: usize = 0;
        let ghost ls = self@;
        while k < self.lines.len()
            invariant
                ls == self@,
                k <= ls.len(),
                r@.map_values(|g: Group| g@) == groups_spec(ls.subrange(0, k as int)),
            decreases ls.len() - k,
        {
            let gs = self.lines[k].groups();
            let ghost before = r@.map_values(|g: Group| g@);
            let ghost gv = gs@.map_values(|g: Group| g@);
            let mut i: usize = 0;
            while i < gs.len()
                invariant
                    i <= gs@.len(),
                    gv == gs@.map_values(|g: Group| g@),
                    r@.map_values(|g: Group| g@) == before + gv.subrange(0, i as int),
                decreases gs@.len() - i,
            {
                let ghost rv = r@;
                let g = gs[i].duplicate();
                r.push(g);
                i += 1;
                assert(r@.map_values(|g: Group| g@) =~= rv.map_values(|g: Group| g@).push(g@));
                assert(r@.map_values(|g: Group| g@) =~= before + gv.subrange(0, i as int));
            }
            proof {
                assert(gv.subrange(0, gv.len() as int) =~= gv);
                assert(ls.subrange(0, k + 1).drop_last() =~= ls.subrange(0, k as int));
                assert(ls.subrange(0, k + 1).last() == ls[k as int]);
            }
            k += 1;
        }
        assert(ls.subrange(0, ls.len() as int) =~= ls);
        r
    }

    /// The labels that occur in the constraint.
    pub fn labels_appearing(&self) -> (r: HashSet<Label>)
        ensures
            r@ == labels_spec(self@),
    {
        let mut h: HashSet<Label> = HashSet::new();
        let mut k: usize = 0;
        let ghost ls = self@;
        while k < self.lines.len()
            invariant
                ls == self@,
                k <= ls.len(),
                h@ == labels_spec(ls.subrange(0, k as int)),
            decreases ls.len() - k,
        {
            let line = &self.lines[k];
            let mut i: usize = 0;
            let ghost before = h@;
            while i < line.parts.len()
                invariant
                    line@ == ls[k as int],
                    k < ls.len(),
                    i <= line@.len(),
                    h@ == before.union(Set::new(|l: Label| exists|q: int| 0 <= q < i && (#[trigger] line@[q]).1.contains(l))),
                decreases line@.len() - i,
            {
                let g = &line.parts[i].group;
                let ghost before_i = h@;
                let mut j: usize = 0;
                while j < g.0.len()
                    invariant
                        j <= g@.len(),
                        h@ == before_i.union(g@.subrange(0, j as int).to_set()),
                    decreases g@.len() - j,
                {
                    h.insert(g.0[j]);
                    j += 1;
                    assert(h@ =~= before_i.union(g@.subrange(0, j as int).to_set())) by {
                        assert(g@.subrange(0, j as int) =~= g@.subrange(0, j - 1).push(g@[j - 1]));
                        g@.subrange(0, j - 1).lemma_push_to_set_commute(g@[j - 1]);
                    }
                }
                proof {
                    assert(g@.subrange(0, g@.len() as int) =~= g@);
                    assert(line@[i as int].1 == g@);
                    assert(h@ =~= before.union(Set::new(|l: Label| exists|q: int| 0 <= q < i + 1 && (#[trigger] line@[q]).1.contains(l)))) by {
                        assert forall|l: Label| #[trigger] h@.contains(l) implies before.union(Set::new(|l: Label| exists|q: int| 0 <= q < i + 1 && (#[trigger] line@[q]).1.contains(l))).contains(l) by {
                            if g@.contains(l) {
                                assert(line@[i as int].1.contains(l));
                            }
                        }
                        assert forall|l: Label| before.union(Set::new(|l: Label| exists|q: int| 0 <= q < i + 1 && (#[trigger] line@[q]).1.contains(l))).contains(l) implies #[trigger] h@.contains(l) by {
                            if !before.contains(l) {
                                let q = choose|q: int| 0 <= q < i + 1 && (#[trigger] line@[q]).1.contains(l);
                                if q == i {
                                    assert(g@.to_set().contains(l));
                                }
                            }
                        }
                    }
                }
                i += 1;
            }
            proof {
                let s1 = ls.subrange(0, k as int);
                let s2 = ls.subrange(0, k + 1);
                assert(h@ =~= labels_spec(s2)) by {
                    assert forall|l: Label| #[trigger] h@.contains(l) implies labels_spec(s2).contains(l) by {
                        if before.contains(l) {
                            let (a, b) = choose|a: int, b: int| 0 <= a < s1.len() && 0 <= b < s1[a].len() && (#[trigger] s1[a][b]).1.contains(l);
                            assert(s2[a][b] == s1[a][b]);
                        } else {
                            let q = choose|q: int| 0 <= q < line@.len() && (#[trigger] line@[q]).1.contains(l);
                            assert(s2[k as int][q] == line@[q]);
                        }
                    }
                    assert forall|l: Label| labels_spec(s2).contains(l) implies #[trigger] h@.contains(l) by {
                        let (a, b) = choose|a: int, b: int| 0 <= a < s2.len() && 0 <= b < s2[a].len() && (#[trigger] s2[a][b]).1.contains(l);
                        if a < k {
                            assert(s1[a][b] == s2[a][b]);
                            assert(labels_spec(s1).contains(l));
                        } else {
                            assert(line@[b].1.contains(l));
                        }
                    }
                }
            }
            k += 1;
        }
        assert(ls.subrange(0, ls.len() as int) =~= ls);
        h
    }

    /// The degree of the constraint, which must be finite.
    pub fn finite_degree(&self) -> (r: usize)
        requires
            self.degree is Finite,
        ensures
            self.degree == Degree::Finite(r),
    {
        match self.degree {
            Degree::Finite(d) => d,
            Degree::Star => 0,
        }
    }

    /// Whether every group that holds `l1` also holds `l2`.
    pub fn is_diagram_predecessor_partial(&self, l1: Label, l2: Label) -> (r: bool)
        ensures
            r == forall|k: int, i: int| 0 <= k < self@.len() && 0 <= i < self@[k].len() && (#[trigger] self@[k][i]).1.contains(l1)
                ==> self@[k][i].1.contains(l2),
    {
        let mut k: usize = 0;
        while k < self.lines.len()
            invariant
                k <= self@.len(),
                forall|a: int, i: int| 0 <= a < k && 0 <= i < self@[a].len() && (#[trigger] self@[a][i]).1.contains(l1)
                    ==> self@[a][i].1.contains(l2),
            decreases self@.len() - k,
        {
            let line = &self.lines[k];
            let mut i: usize = 0;
            while i < line.parts.len()
                invariant
                    line@ == self@[k as int],
                    k < self@.len(),
                    i <= line@.len(),
                    forall|a: int, q: int| 0 <= a < k && 0 <= q < self@[a].len() && (#[trigger] self@[a][q]).1.contains(l1)
                        ==> self@[a][q].1.contains(l2),
                    forall|q: int| 0 <= q < i && (#[trigger] line@[q]).1.contains(l1) ==> line@[q].1.contains(l2),
                decreases line@.len() - i,
            {
                let g = &line.parts[i].group;
                if g.contains(l1) && !g.contains(l2) {
                    assert(self@[k as int][i as int].1.contains(l1));
                    return false;
                }
                i += 1;
            }
            proof {
                assert forall|a: int, q: int| 0 <= a < k + 1 && 0 <= q < self@[a].len() && (#[trigger] self@[a][q]).1.contains(l1)
                    implies self@[a][q].1.contains(l2) by {
                    if a == k {
                        assert(line@[q] == self@[a][q]);
                    }
                }
            }
            k += 1;
        }
        true
    }
}

/// The labels of a pair of groups, in order.
pub type PairV = (Seq<Label>, Seq<Label>);

/// Some pair of `pairs`, from index `start` on, has `x` in its first group and
/// `y` in its second.
pub open spec fn pair_covers(pairs: Seq<PairV>, start: int, x: Label, y: Label) -> bool {
    exists|k: int| start <= k < pairs.len() && (#[trigger] pairs[k]).0.contains(x) && pairs[k].1.contains(y)
}

/// Every pair of a label of `g1` and a label of `g2` is covered by a pair of
/// `pairs` from index `start` on.
pub open spec fn rect_covered(g1: Set<Label>, g2: Set<Label>, pairs: Seq<PairV>, start: int) -> bool {
    forall|x: Label, y: Label| g1.contains(x) && g2.contains(y) ==> #[trigger] pair_covers(pairs, start, x, y)
}

/// The views of a sequence of pairs of groups.
pub open spec fn pairs_view(v: Seq<(Group, Group)>) -> Seq<PairV> {
    v.map_values(|p: (Group, Group)| (p.0@, p.1@))
}

/// The two groups of a configuration of degree two: the first part, then the
/// second part or again the first.
pub open spec fn two_groups(l: Seq<PartV>) -> PairV {
    (l[0].1, if l.len() == 1 { l[0].1 } else { l[1].1 })
}

/// For each line of degree two, its two groups in both orders.
pub open spec fn slow_pairs(ls: Seq<Seq<PartV>>) -> Seq<PairV>
    decreases ls.len(),
{
    if ls.len() == 0 {
        Seq::empty()
    } else {
        let p = two_groups(ls.last());
        slow_pairs(ls.drop_last()).push(p).push((p.1, p.0))
    }
}

/// No pair of `pairs` in `[start, k)` covers a pair of a label of `g1` and a
/// label of `g2`.
pub open spec fn none_meet(g1: Set<Label>, g2: Set<Label>, pairs: Seq<PairV>, start: int, k: int) -> bool {
    forall|q: int, x: Label, y: Label|
        #![trigger pairs[q].0.contains(x), pairs[q].1.contains(y)]
        start <= q < k && g1.contains(x) && g2.contains(y) && pairs[q].0.contains(x) ==> !pairs[q].1.contains(y)
}

/// Splitting the pairs of `g1` and `g2` along the pair `k`, the first that
/// meets them.
proof fn lemma_rect_split(g1: Set<Label>, g2: Set<Label>, pairs: Seq<PairV>, start: int, k: int)
    requires
        start <= k < pairs.len(),
        none_meet(g1, g2, pairs, start, k),
    ensures
        ({
            let o1 = pairs[k].0.to_set();
            let o2 = pairs[k].1.to_set();
            rect_covered(g1, g2, pairs, start) == (
                rect_covered(o1.intersect(g1), g2.difference(o2), pairs, k + 1)
                && rect_covered(g1.difference(o1), o2.intersect(g2), pairs, k + 1)
                && rect_covered(g1.difference(o1), g2.difference(o2), pairs, k + 1))
        }),
{
    let o1 = pairs[k].0.to_set();
    let o2 = pairs[k].1.to_set();
    if rect_covered(g1, g2, pairs, start) {
        assert forall|x: Label, y: Label| g1.contains(x) && g2.contains(y) && !(o1.contains(x) && o2.contains(y))
            implies #[trigger] pair_covers(pairs, k + 1, x, y) by {
            assert(pair_covers(pairs, start, x, y));
            let q = choose|q: int| start <= q < pairs.len() && (#[trigger] pairs[q]).0.contains(x) && pairs[q].1.contains(y);
            if q < k {
                assert(!pairs[q].1.contains(y));
            }
            if q == k {
                assert(o1.contains(x) && o2.contains(y));
            }
        }
        assert(rect_covered(o1.intersect(g1), g2.difference(o2), pairs, k + 1));
        assert(rect_covered(g1.difference(o1), o2.intersect(g2), pairs, k + 1));
        assert(rect_covered(g1.difference(o1), g2.difference(o2), pairs, k + 1));
    }
    if rect_covered(o1.intersect(g1), g2.difference(o2), pairs, k + 1)
        && rect_covered(g1.difference(o1), o2.intersect(g2), pairs, k + 1)
        && rect_covered(g1.difference(o1), g2.difference(o2), pairs, k + 1) {
        assert forall|x: Label, y: Label| g1.contains(x) && g2.contains(y) implies #[trigger] pair_covers(pairs, start, x, y) by {
            if o1.contains(x) && o2.contains(y) {
                assert(pairs[k].0.contains(x) && pairs[k].1.contains(y));
            } else {
                if o1.contains(x) {
                    assert(pair_covers(pairs, k + 1, x, y));
                } else if o2.contains(y) {
                    assert(pair_covers(pairs, k + 1, x, y));
                } else {
                    assert(pair_covers(pairs, k + 1, x, y));
                }
                let q = choose|q: int| k + 1 <= q < pairs.len() && (#[trigger] pairs[q]).0.contains(x) && pairs[q].1.contains(y);
                assert(start <= q);
            }
        }
    }
}

/// A configuration of degree two has a part.
proof fn lemma_degree_two_has_part(l: Seq<PartV>)
    requires
        degree_spec(l) == Degree::Finite(2),
    ensures
        l.len() >= 1,
{
    if l.len() == 0 {
        assert(!has_star_spec(l));
    }
}

impl Constraint {
    /// Whether every pair of a label of `g1` and a label of `g2` is covered by
    /// one of the pairs of groups `lines[start..]`: the first pair that meets
    /// them covers a rectangle, and the three rectangles around it are checked
    /// against the pairs after it.
    pub fn includes_slow_helper(g1: &Group, g2: &Group, lines: &Vec<(Group, Group)>, start: usize) -> (r: bool)
        requires
            g1.wf(),
            g2.wf(),
            start <= lines@.len(),
            forall|k: int| 0 <= k < lines@.len() ==> (#[trigger] lines@[k]).0.wf() && lines@[k].1.wf(),
        ensures
            r == rect_covered(g1.labels(), g2.labels(), pairs_view(lines@), start as int),
        decreases lines@.len() - start,
    {
        let ghost pv = pairs_view(lines@);
        if g1.is_empty() || g2.is_empty() {
            return true;
        }
        let mut i: usize = start;
        while i < lines.len()
            invariant
                g1.wf(), g2.wf(),
                g1@.len() > 0, g2@.len() > 0,
                pv == pairs_view(lines@),
                start <= i <= lines@.len(),
                forall|k: int| 0 <= k < lines@.len() ==> (#[trigger] lines@[k]).0.wf() && lines@[k].1.wf(),
                none_meet(g1.labels(), g2.labels(), pv, start as int, i as int),
            decreases lines@.len() - i,
        {
            let o1 = &lines[i].0;
            let o2 = &lines[i].1;
            assert(pv[i as int] == (o1@, o2@));
            let int1 = o1.intersection(g1);
            let int2 = o2.intersection(g2);
            if !int1.is_empty() && !int2.is_empty() {
                let diff1 = g1.difference(o1);
                let diff2 = g2.difference(o2);
                proof {
                    lemma_rect_split(g1.labels(), g2.labels(), pv, start as int, i as int);
                }
                return Self::includes_slow_helper(&int1, &diff2, lines, i + 1)
                    && Self::includes_slow_helper(&diff1, &int2, lines, i + 1)
                    && Self::includes_slow_helper(&diff1, &diff2, lines, i + 1);
            }
            proof {
                if int1@.len() == 0 {
                    assert(int1.labels() =~= Set::<Label>::empty());
                    assert forall|x: Label| g1.labels().contains(x) implies !o1@.contains(x) by {
                        if o1@.contains(x) {
                            assert(int1.labels().contains(x));
                        }
                    }
                } else {
                    assert(int2.labels() =~= Set::<Label>::empty());
                    assert forall|y: Label| g2.labels().contains(y) implies !o2@.contains(y) by {
                        if o2@.contains(y) {
                            assert(int2.labels().contains(y));
                        }
                    }
                }
            }
            i += 1;
        }
        proof {
            let x = g1@[0];
            let y = g2@[0];
            assert(g1.labels().contains(x));
            assert(g2.labels().contains(y));
            assert(!pair_covers(pv, start as int, x, y));
        }
        false
    }

    /// For a constraint of degree two: whether every pair of a label of the
    /// first group of `other` and a label of its second group is covered by a
    /// line, in one order or the other.
    pub fn includes_slow(&self, other: &Line) -> (r: bool)
        requires
            self.wf(),
            other.wf(),
            self.degree == Degree::Finite(2),
            other@.len() >= 1,
        ensures
            ({
                let p = two_groups(other@);
                r == rect_covered(p.0.to_set(), p.1.to_set(), slow_pairs(self@), 0)
            }),
    {
        let a = &other.parts[0].group;
        let b = if other.parts.len() == 1 { &other.parts[0].group } else { &other.parts[1].group };
        let mut pairs: Vec<(Group, Group)> = Vec::new();
        let mut k: usize = 0;
        let ghost ls = self@;
        while k < self.lines.len()
            invariant
                self.wf(),
                ls == self@,
                self.degree == Degree::Finite(2),
                k <= ls.len(),
                pairs_view(pairs@) == slow_pairs(ls.subrange(0, k as int)),
                forall|q: int| 0 <= q < pairs@.len() ==> (#[trigger] pairs@[q]).0.wf() && pairs@[q].1.wf(),
            decreases ls.len() - k,
        {
            let line = &self.lines[k];
            assert(line.wf() && degree_spec(line@) == Degree::Finite(2));
            proof {
                lemma_degree_two_has_part(line@);
                assert(crate::group::strictly_sorted(line@[0].1));
                if line@.len() > 1 {
                    assert(crate::group::strictly_sorted(line@[1].1));
                }
            }
            let cur_a = line.parts[0].group.duplicate();
            let cur_b = if line.parts.len() == 1 { line.parts[0].group.duplicate() } else { line.parts[1].group.duplicate() };
            let ca2 = cur_a.duplicate();
            let cb2 = cur_b.duplicate();
            let ghost before = pairs@;
            pairs.push((cur_a, cur_b));
            pairs.push((cb2, ca2));
            proof {
                assert(ls.subrange(0, k + 1).drop_last() =~= ls.subrange(0, k as int));
                assert(ls.subrange(0, k + 1).last() == line@);
                assert(pairs_view(pairs@) =~= pairs_view(before).push((ca2@, cb2@)).push((cb2@, ca2@)));
                assert forall|q: int| 0 <= q < pairs@.len() implies (#[trigger] pairs@[q]).0.wf() && pairs@[q].1.wf() by {
                    if q < before.len() {
                        assert(pairs@[q] == before[q]);
                    }
                }
            }
            k += 1;
        }
        assert(ls.subrange(0, ls.len() as int) =~= ls);
        proof {
            assert(crate::group::strictly_sorted(other@[0].1));
            if other@.len() > 1 {
                assert(crate::group::strictly_sorted(other@[1].1));
            }
        }
        Self::includes_slow_helper(a, b, &pairs, 0)
    }

    /// Whether the constraint allows the configurations of `other`; for a
    /// constraint of degree two that has not been maximized, whether its lines cover every
    /// configuration of `other`.
    pub fn includes(&self, other: &Line) -> (r: bool)
        requires
            self.wf(),
            other.wf(),
            includes_defined(*self, other@),
        ensures
            r == constraint_includes(*self, other@),
    {
        if self.is_maximized || self.degree != Degree::Finite(2) {
            let mut k: usize = 0;
            while k < self.lines.len()
                invariant
                    self.wf(),
                    other.wf(),
                    includes_defined(*self, other@),
                    self.is_maximized || self.degree != Degree::Finite(2),
                    k <= self@.len(),
                    forall|q: int| 0 <= q < k ==> !included(#[trigger] self@[q], other@),
                decreases self@.len() - k,
            {
                assert(star_capacity_fits(self@[k as int], other@));
                if self.lines[k].includes(other) {
                    assert(included(self@[k as int], other@));
                    return true;
                }
                assert(!included(self@[k as int], other@));
                k += 1;
            }
            false
        } else {
            self.includes_slow(other)
        }
    }
}

/// The test of `Constraint::includes` can be run on `l`: when it goes through
/// the lines, a starred part of `l` finds room in each line; otherwise `l`
/// has a part.
pub open spec fn includes_defined(c: Constraint, l: Seq<PartV>) -> bool {
    if c.is_maximized || c.degree != Degree::Finite(2) {
        forall|k: int| 0 <= k < c@.len() ==> star_capacity_fits(#[trigger] c@[k], l)
    } else {
        l.len() >= 1
    }
}

/// A line of the constraint's own degree can always be tested.
pub proof fn lemma_same_degree_defined(c: Constraint, l: Seq<PartV>)
    requires
        c.wf(),
        degree_spec(l) == c.degree,
    ensures
        includes_defined(c, l),
{
    if c.is_maximized || c.degree != Degree::Finite(2) {
        assert forall|k: int| 0 <= k < c@.len() implies star_capacity_fits(#[trigger] c@[k], l) by {
            assert(c.lines@[k].wf());
            lemma_same_degree_fits(c@[k], l);
        }
    } else {
        lemma_degree_two_has_part(l);
    }
}


/// The constraint allows the configurations of line `l`: a line of it
/// includes `l`, or, for a constraint of degree two that has not been
/// maximized, its lines cover every pair of labels of `l`.
pub open spec fn constraint_includes(c: Constraint, l: Seq<PartV>) -> bool {
    if c.is_maximized || c.degree != Degree::Finite(2) {
        exists|k: int| 0 <= k < c@.len() && included(#[trigger] c@[k], l)
    } else {
        let p = two_groups(l);
        rect_covered(p.0.to_set(), p.1.to_set(), slow_pairs(c@), 0)
    }
}

} // verus!
