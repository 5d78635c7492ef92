use vstd::prelude::*;

use crate::constraint::{add_line_spec, discard_spec, included, lines_view, lines_wf, not_included_by, Constraint};
use crate::group::Group;
use crate::inclusion::{callable_on, table_of};
use crate::inclusion::matching_spec;
use crate::line::{degree_spec, Line, PartV};

verus! {

/// Line `a` includes line `b` as far as the test may decide: some table of
/// answers that the test may give on their groups lets the groups of `b` be
/// matched into those of `a`; without a test, `a` includes `b`.
pub open spec fn may_include<T: Fn(&Group, &Group) -> bool>(is_superset: Option<T>, a: Line, b: Line) -> bool {
    exists|t: Seq<Seq<bool>>| table_of(is_superset, a, b, t) && matching_spec(a@, b@, t) is Some
}

/// Some table of answers that the test may give lets nothing be matched.
pub open spec fn may_exclude<T: Fn(&Group, &Group) -> bool>(is_superset: Option<T>, a: Line, b: Line) -> bool {
    exists|t: Seq<Seq<bool>>| table_of(is_superset, a, b, t) && matching_spec(a@, b@, t) is None
}

/// The test can be asked about every pair of a group of `a` and a group of
/// `b`, in both orders.
pub open spec fn callable_on_both<T: Fn(&Group, &Group) -> bool>(is_superset: Option<T>, a: Line, b: Line) -> bool {
    is_superset matches Some(f) ==> callable_on(f, a, b) && callable_on(f, b, a)
}

/// The test can be asked about every pair of a group of a line of `ls` and a
/// group of `n`, in both orders.
pub open spec fn callable_with<T: Fn(&Group, &Group) -> bool>(is_superset: Option<T>, ls: Seq<Line>, n: Line) -> bool {
    forall|k: int| 0 <= k < ls.len() ==> callable_on_both(is_superset, #[trigger] ls[k], n)
}

/// The test can be asked about the groups of any two lines of `ls`.
pub open spec fn callable_among<T: Fn(&Group, &Group) -> bool>(is_superset: Option<T>, ls: Seq<Line>) -> bool {
    forall|k: int, m: int| 0 <= k < ls.len() && 0 <= m < ls.len() ==> callable_on_both(is_superset, #[trigger] ls[k], #[trigger] ls[m])
}

proof fn lemma_decided<T: Fn(&Group, &Group) -> bool>(is_superset: Option<T>, a: Line, b: Line, r: bool)
    requires
        exists|t: Seq<Seq<bool>>| table_of(is_superset, a, b, t) && (r <==> matching_spec(a@, b@, t) is Some),
    ensures
        r ==> may_include(is_superset, a, b),
        !r ==> may_exclude(is_superset, a, b),
        is_superset is None ==> (r == included(a@, b@)),
{
    let t = choose|t: Seq<Seq<bool>>| table_of(is_superset, a, b, t) && (r <==> matching_spec(a@, b@, t) is Some);
}

impl Constraint {
    /// Whether some line includes `newline`, deciding which group holds
    /// which with the test when there is one.
    pub fn includes_with_custom_supersets<T: Fn(&Group, &Group) -> bool + Copy>(&self, newline: &Line, is_superset: Option<T>) -> (r: bool)
        requires
            self.wf(),
            newline.wf(),
            degree_spec(newline@) == self.degree,
            callable_with(is_superset, self.lines@, *newline),
        ensures
            r ==> exists|k: int| 0 <= k < self@.len() && may_include(is_superset, #[trigger] self.lines@[k], *newline),
            !r ==> forall|k: int| 0 <= k < self@.len() ==> may_exclude(is_superset, #[trigger] self.lines@[k], *newline),
            is_superset is None ==> (r == exists|k: int| 0 <= k < self@.len() && included(#[trigger] self@[k], newline@)),
    {
        let mut k: usize = 0;
        while k < self.lines.len()
            invariant
                self.wf(),
                newline.wf(),
                degree_spec(newline@) == self.degree,
                callable_with(is_superset, self.lines@, *newline),
                k <= self@.len(),
                forall|q: int| 0 <= q < k ==> may_exclude(is_superset, #[trigger] self.lines@[q], *newline),
                is_superset is None ==> forall|q: int| 0 <= q < k ==> !included(#[trigger] self@[q], newline@),
            decreases self@.len() - k,
        {
            proof {
                crate::constraint::lemma_same_degree_fits(self.lines@[k as int]@, newline@);
                assert(self@[k as int] == self.lines@[k as int]@);
            }
            let inc = self.lines[k].includes_with_custom_supersets(newline, is_superset);
            proof {
                lemma_decided(is_superset, self.lines@[k as int], *newline, inc);
            }
            if inc {
                return true;
            }
            k += 1;
        }
        false
    }

    /// The lines that include `newline`, in order, deciding which group
    /// holds which with the test when there is one.
    pub fn includers_with_custom_supersets<T: Fn(&Group, &Group) -> bool + Copy>(&self, newline: &Line, is_superset: Option<T>) -> (r: Vec<Line>)
        requires
            self.wf(),
            newline.wf(),
            degree_spec(newline@) == self.degree,
            callable_with(is_superset, self.lines@, *newline),
        ensures
            lines_view(r@).len() <= self@.len(),
            forall|k: int| 0 <= k < r@.len() ==> self@.contains(#[trigger] r@[k]@),
            is_superset is None ==> lines_view(r@) == self@.filter(|l: Seq<PartV>| included(l, newline@)),
    {
        let mut r: Vec<Line> = Vec::new();
        let mut k: usize = 0;
        while k < self.lines.len()
            invariant
                self.wf(),
                newline.wf(),
                degree_spec(newline@) == self.degree,
                callable_with(is_superset, self.lines@, *newline),
                k <= self@.len(),
                r@.len() <= k,
                forall|q: int| 0 <= q < r@.len() ==> self@.contains(#[trigger] r@[q]@),
                is_superset is None ==> lines_view(r@) == self@.subrange(0, k as int).filter(|l: Seq<PartV>| included(l, newline@)),
            decreases self@.len() - k,
        {
            proof {
                crate::constraint::lemma_same_degree_fits(self.lines@[k as int]@, newline@);
                assert(self@[k as int] == self.lines@[k as int]@);
            }
            let inc = self.lines[k].includes_with_custom_supersets(newline, is_superset);
            proof {
                lemma_decided(is_superset, self.lines@[k as int], *newline, inc);
                let sub = self@.subrange(0, k + 1);
                assert(sub.drop_last() =~= self@.subrange(0, k as int));
                assert(sub.last() == self@[k as int]);
                self@.subrange(0, k as int).lemma_filter_push(self@[k as int], |l: Seq<PartV>| included(l, newline@));
                assert(sub =~= self@.subrange(0, k as int).push(self@[k as int]));
            }
            if inc {
                let ghost before = r@;
                r.push(self.lines[k].duplicate());
                proof {
                    assert(lines_view(r@) =~= lines_view(before).push(self@[k as int]));
                    assert forall|q: int| 0 <= q < r@.len() implies self@.contains(#[trigger] r@[q]@) by {
                        if q < before.len() {
                            assert(r@[q] == before[q]);
                        } else {
                            assert(r@[q]@ == self@[k as int]);
                        }
                    }
                }
            }
            k += 1;
        }
        assert(self@.subrange(0, self@.len() as int) =~= self@);
        r
    }

    /// Adds `newline`: the lines that it includes go, and it is added unless
    /// a line that stays includes it (when nothing went); inclusion is
    /// decided with the test when there is one.
    pub fn add_line_and_discard_non_maximal_with_custom_supersets<T: Fn(&Group, &Group) -> bool + Copy>(
        &mut self,
        newline: Line,
        is_superset: Option<T>,
    )
        requires
            old(self).wf(),
            newline.wf(),
            degree_spec(newline@) == old(self).degree,
            callable_with(is_superset, old(self).lines@, newline),
        ensures
            final(self).wf(),
            final(self).degree == old(self).degree,
            !final(self).is_maximized,
            forall|k: int|
                #![trigger final(self).lines@[k]]
                0 <= k < final(self).lines@.len() ==> final(self).lines@[k] == newline || (old(self).lines@.contains(
                    final(self).lines@[k],
                ) && may_exclude(is_superset, newline, final(self).lines@[k])),
            forall|k: int|
                0 <= k < old(self).lines@.len() && !final(self).lines@.contains(#[trigger] old(self).lines@[k])
                    ==> may_include(is_superset, newline, old(self).lines@[k]),
            is_superset is None ==> final(self)@ == add_line_spec(old(self)@, newline@),
    {
        self.is_maximized = false;
        let ghost ls = self@;
        let ghost olds = self.lines@;
        let ghost d = self.degree;
        let len = self.lines.len();
        let mut rest: Vec<Line> = Vec::new();
        std::mem::swap(&mut rest, &mut self.lines);
        let mut kept: Vec<Line> = Vec::new();
        let ghost mut i: int = 0;
        while rest.len() > 0
            invariant
                0 <= i <= olds.len(),
                rest@ == olds.subrange(i, olds.len() as int),
                lines_wf(olds, d),
                ls == lines_view(olds),
                newline.wf(),
                degree_spec(newline@) == d,
                callable_with(is_superset, olds, newline),
                lines_wf(kept@, d),
                forall|q: int|
                    0 <= q < kept@.len() ==> olds.contains(#[trigger] kept@[q]) && may_exclude(is_superset, newline, kept@[q]),
                forall|q: int|
                    0 <= q < i && !kept@.contains(#[trigger] olds[q]) ==> may_include(is_superset, newline, olds[q]),
                is_superset is None ==> lines_view(kept@) == not_included_by(ls.subrange(0, i), newline@),
            decreases rest@.len(),
        {
            let l = rest.remove(0);
            proof {
                assert(l == olds[i]);
                crate::constraint::lemma_same_degree_fits(newline@, l@);
                assert(ls.subrange(0, i + 1).drop_last() =~= ls.subrange(0, i));
                assert(ls.subrange(0, i + 1).last() == l@);
            }
            let inc = newline.includes_with_custom_supersets(&l, is_superset);
            proof {
                lemma_decided(is_superset, newline, l, inc);
            }
            if !inc {
                let ghost before = kept@;
                kept.push(l);
                proof {
                    assert(lines_view(kept@) =~= lines_view(before).push(l@));
                    assert(kept@[before.len() as int] == olds[i]);
                    assert forall|q: int| 0 <= q <= i && !kept@.contains(#[trigger] olds[q]) implies may_include(
                        is_superset,
                        newline,
                        olds[q],
                    ) by {
                        if q < i && before.contains(olds[q]) {
                            let w = choose|w: int| 0 <= w < before.len() && before[w] == olds[q];
                            assert(kept@[w] == olds[q]);
                        }
                        if q == i {
                            assert(kept@[before.len() as int] == olds[q]);
                        }
                    }
                }
            }
            proof {
                i = i + 1;
                assert(rest@ =~= olds.subrange(i, olds.len() as int));
            }
        }
        assert(ls.subrange(0, ls.len() as int) =~= ls);
        let changed = kept.len() != len;
        let mut add = changed;
        if !changed {
            let mut all_miss = true;
            let mut j: usize = 0;
            while j < kept.len()
                invariant
                    lines_wf(kept@, d),
                    newline.wf(),
                    degree_spec(newline@) == d,
                    callable_with(is_superset, olds, newline),
                    forall|q: int| 0 <= q < kept@.len() ==> olds.contains(#[trigger] kept@[q]),
                    j <= kept@.len(),
                    is_superset is None ==> (all_miss <==> forall|k: int| 0 <= k < j ==> !included(#[trigger] lines_view(kept@)[k], newline@)),
                decreases kept@.len() - j,
            {
                proof {
                    crate::constraint::lemma_same_degree_fits(kept@[j as int]@, newline@);
                    assert(lines_view(kept@)[j as int] == kept@[j as int]@);
                    assert(olds.contains(kept@[j as int]));
                    let w = choose|w: int| 0 <= w < olds.len() && olds[w] == kept@[j as int];
                    assert(olds[w] == kept@[j as int]);
                }
                let inc = kept[j].includes_with_custom_supersets(&newline, is_superset);
                proof {
                    lemma_decided(is_superset, kept@[j as int], newline, inc);
                }
                if inc {
                    all_miss = false;
                }
                j += 1;
            }
            add = all_miss;
        }
        if add {
            let ghost before = kept@;
            kept.push(newline);
            proof {
                assert(lines_view(kept@) =~= lines_view(before).push(newline@));
                assert forall|q: int| 0 <= q < olds.len() && !kept@.contains(#[trigger] olds[q]) implies may_include(
                    is_superset,
                    newline,
                    olds[q],
                ) by {
                    if before.contains(olds[q]) {
                        let w = choose|w: int| 0 <= w < before.len() && before[w] == olds[q];
                        assert(kept@[w] == olds[q]);
                    }
                }
            }
        }
        self.lines = kept;
    }

    /// Keeps only the maximal lines, adding the lines one after the other;
    /// inclusion is decided with the test when there is one.
    pub fn discard_non_maximal_lines_with_custom_supersets<T: Fn(&Group, &Group) -> bool + Copy>(&mut self, is_superset: Option<T>)
        requires
            old(self).wf(),
            callable_among(is_superset, old(self).lines@),
        ensures
            final(self).wf(),
            final(self).degree == old(self).degree,
            !final(self).is_maximized,
            forall|k: int| 0 <= k < final(self).lines@.len() ==> old(self).lines@.contains(#[trigger] final(self).lines@[k]),
            is_superset is None ==> final(self)@ == discard_spec(old(self)@),
    {
        self.is_maximized = false;
        let mut rest: Vec<Line> = Vec::new();
        std::mem::swap(&mut rest, &mut self.lines);
        let ghost olds = rest@;
        let ghost ls = lines_view(olds);
        let ghost d = self.degree;
        assert(discard_spec(ls.subrange(0, 0)) =~= self@);
        let ghost mut i: int = 0;
        while rest.len() > 0
            invariant
                0 <= i <= olds.len(),
                rest@ == olds.subrange(i, olds.len() as int),
                lines_wf(olds, d),
                ls == lines_view(olds),
                callable_among(is_superset, olds),
                self.degree == d,
                self.wf(),
                !self.is_maximized,
                forall|k: int| 0 <= k < self.lines@.len() ==> olds.contains(#[trigger] self.lines@[k]),
                is_superset is None ==> self@ == discard_spec(ls.subrange(0, i)),
            decreases rest@.len(),
        {
            let l = rest.remove(0);
            proof {
                assert(l == olds[i]);
                assert(ls.subrange(0, i + 1).drop_last() =~= ls.subrange(0, i));
                assert(ls.subrange(0, i + 1).last() == l@);
                assert forall|k: int| 0 <= k < self.lines@.len() implies callable_on_both(is_superset, #[trigger] self.lines@[k], l) by {
                    let w = choose|w: int| 0 <= w < olds.len() && olds[w] == self.lines@[k];
                    assert(callable_on_both(is_superset, olds[w], olds[i]));
                }
            }
            let ghost before = self.lines@;
            self.add_line_and_discard_non_maximal_with_custom_supersets(l, is_superset);
            proof {
                assert forall|k: int| 0 <= k < self.lines@.len() implies olds.contains(#[trigger] self.lines@[k]) by {
                    if self.lines@[k] != l {
                        let w = choose|w: int| 0 <= w < before.len() && before[w] == self.lines@[k];
                        assert(olds.contains(before[w]));
                    } else {
                        assert(olds[i] == l);
                    }
                }
                i = i + 1;
                assert(rest@ =~= olds.subrange(i, olds.len() as int));
            }
        }
        assert(ls.subrange(0, ls.len() as int) =~= ls);
    }
}

} // verus!
