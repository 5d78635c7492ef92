use vstd::prelude::*;
use std::collections::HashMap;

use crate::group::{strictly_sorted, Group, GroupType, Label};
use crate::order::{parts_strictly_sorted, parts_view, sort_parts};
use crate::part::{Part, part_text, names_all};

verus! {

/// The view of a part: its number of occurrences and its labels.
pub type PartV = (GroupType, Seq<Label>);

/// A configuration: a multiset of labels, written as groups of labels with
/// their numbers of occurrences.
#[derive(Clone, Debug, Eq, PartialEq, Ord, PartialOrd, Hash)]
pub struct Line {
    pub parts: Vec<Part>,
}

/// The degree of a configuration: how many labels it holds, or `Star` when
/// that number is not fixed.
#[derive(Copy, Clone, Debug, Eq, PartialEq, Structural, Ord, PartialOrd)]
pub enum Degree {
    Finite(usize),
    Star,
}

impl View for Line {
    type V = Seq<PartV>;

    open spec fn view(&self) -> Seq<PartV> {
        parts_view(self.parts@)
    }
}

/// The largest number of parts that a line may hold. Deciding inclusion
/// builds a flow network with an edge for each pair of parts of two lines;
/// with this bound its edge count stays below what the flow library's
/// vectors, holding two entries per edge, can index on a 32-bit machine.
pub const MAX_PARTS: usize = 8192;

/// Sum of the exponents of the parts without a star.
pub open spec fn degree_without_star_spec(ps: Seq<PartV>) -> nat
    decreases ps.len(),
{
    if ps.len() == 0 {
        0
    } else {
        degree_without_star_spec(ps.drop_last()) + match ps.last().0 {
            GroupType::Many(n) => n as nat,
            GroupType::Star => 0,
        }
    }
}

/// Some part carries a star.
pub open spec fn has_star_spec(ps: Seq<PartV>) -> bool {
    exists|i: int| 0 <= i < ps.len() && (#[trigger] ps[i]).0 == GroupType::Star
}

/// The degree of a sequence of parts.
pub open spec fn degree_spec(ps: Seq<PartV>) -> Degree {
    if has_star_spec(ps) {
        Degree::Star
    } else {
        Degree::Finite(degree_without_star_spec(ps) as usize)
    }
}

/// Every group is strictly increasing, there are at most `MAX_PARTS` parts,
/// and the exponents add up to at most 255.
pub open spec fn parts_wf(ps: Seq<PartV>) -> bool {
    &&& ps.len() <= MAX_PARTS
    &&& forall|i: int| 0 <= i < ps.len() ==> strictly_sorted(#[trigger] ps[i].1)
    &&& degree_without_star_spec(ps) <= 255
}

impl Line {
    pub open spec fn wf(&self) -> bool {
        parts_wf(self@)
    }

    /// An equal copy of the line.
    pub fn duplicate(&self) -> (r: Line)
        ensures
            r@ == self@,
    {
        Line { parts: copy_parts(&self.parts) }
    }

    /// The sum of the exponents of the parts without a star.
    pub fn degree_without_star(&self) -> (r: usize)
        requires
            self.wf(),
        ensures
            r == degree_without_star_spec(self@),
    {
        let mut s: usize = 0;
        let mut i: usize = 0;
        while i < self.parts.len()
            invariant
                i <= self@.len(),
                self.wf(),
                s == degree_without_star_spec(self@.subrange(0, i as int)),
            decreases self@.len() - i,
        {
            proof {
                assert(self@.subrange(0, i + 1).drop_last() =~= self@.subrange(0, i as int));
                lemma_degree_prefix(self@, i + 1);
            }
            match self.parts[i].gtype {
                GroupType::Many(n) => {
                    s += n as usize;
                },
                GroupType::Star => {},
            }
            i += 1;
        }
        assert(self@.subrange(0, self@.len() as int) =~= self@);
        s
    }

    /// Whether some part carries a star.
    pub fn has_star(&self) -> (r: bool)
        ensures
            r == has_star_spec(self@),
    {
        let r = self.get_star();
        proof {
            if let Some(p) = r {
                let i = choose|i: int| 0 <= i < self.parts@.len() && self.parts@[i] == *p
                    && forall|j: int| 0 <= j < i ==> self.parts@[j].gtype != GroupType::Star;
                assert(self@[i].0 == GroupType::Star);
            }
        }
        r.is_some()
    }

    /// The first part that carries a star, if any.
    pub fn get_star(&self) -> (r: Option<&Part>)
        ensures
            match r {
                Some(p) => p.gtype == GroupType::Star && exists|i: int| 0 <= i < self.parts@.len() && self.parts@[i] == *p
                    && forall|j: int| 0 <= j < i ==> self.parts@[j].gtype != GroupType::Star,
                None => !has_star_spec(self@),
            },
    {
        let mut i: usize = 0;
        while i < self.parts.len()
            invariant
                i <= self.parts@.len(),
                forall|j: int| 0 <= j < i ==> self.parts@[j].gtype != GroupType::Star,
            decreases self.parts@.len() - i,
        {
            if self.parts[i].gtype == GroupType::Star {
                return Some(&self.parts[i]);
            }
            i += 1;
        }
        proof {
            if has_star_spec(self@) {
                let k = choose|k: int| 0 <= k < self@.len() && (#[trigger] self@[k]).0 == GroupType::Star;
                assert(self.parts@[k].gtype == GroupType::Star);
            }
        }
        None
    }

    /// The degree of the line: the number of labels, or `Star`.
    pub fn degree(&self) -> (r: Degree)
        requires
            self.wf(),
        ensures
            r == degree_spec(self@),
    {
        if self.has_star() {
            Degree::Star
        } else {
            Degree::Finite(self.degree_without_star())
        }
    }
}

/// The sum over a prefix is at most the sum over the whole.
pub proof fn lemma_degree_prefix(ps: Seq<PartV>, n: int)
    requires
        0 <= n <= ps.len(),
    ensures
        degree_without_star_spec(ps.subrange(0, n)) <= degree_without_star_spec(ps),
    decreases ps.len() - n,
{
    if n < ps.len() {
        lemma_degree_prefix(ps, n + 1);
        assert(ps.subrange(0, n + 1).drop_last() =~= ps.subrange(0, n));
    } else {
        assert(ps.subrange(0, n) =~= ps);
    }
}

/// An equal copy of a vector of parts.
pub fn copy_parts(v: &Vec<Part>) -> (r: Vec<Part>)
    ensures
        parts_view(r@) == parts_view(v@),
{
    let mut r: Vec<Part> = Vec::new();
    let mut i: usize = 0;
    while i < v.len()
        invariant
            i <= v@.len(),
            r@.len() == i,
            forall|k: int| 0 <= k < i ==> (#[trigger] r@[k])@ == v@[k]@,
        decreases v@.len() - i,
    {
        r.push(v[i].duplicate());
        i += 1;
    }
    assert(parts_view(r@) =~= parts_view(v@));
    r
}

/// How a line is written: its parts separated by spaces.
pub open spec fn line_text(m: Map<Label, String>, ps: Seq<PartV>) -> Seq<char>
    decreases ps.len(),
{
    if ps.len() == 0 {
        Seq::empty()
    } else if ps.len() == 1 {
        part_text(m, ps[0])
    } else {
        line_text(m, ps.drop_last()) + seq![' '] + part_text(m, ps.last())
    }
}

/// `m` names every label of every part.
pub open spec fn names_all_parts(m: Map<Label, String>, ps: Seq<PartV>) -> bool {
    forall|i: int| 0 <= i < ps.len() ==> names_all(m, #[trigger] ps[i].1)
}

impl Line {
    /// Writes the line with the label names of `mapping`.
    pub fn to_string(&self, mapping: &HashMap<Label, String>) -> (r: String)
        requires
            names_all_parts(mapping@, self@),
        ensures
            r@ == line_text(mapping@, self@),
    {
        let mut s = String::new();
        let mut i: usize = 0;
        while i < self.parts.len()
            invariant
                i <= self@.len(),
                names_all_parts(mapping@, self@),
                s@ == line_text(mapping@, self@.subrange(0, i as int)),
            decreases self@.len() - i,
        {
            assert(names_all(mapping@, self@[i as int].1));
            let t = self.parts[i].to_string(mapping);
            if i > 0 {
                crate::text::push_char(&mut s, ' ');
            }
            crate::text::push_str(&mut s, t.as_str());
            proof {
                assert(self@.subrange(0, i + 1).drop_last() =~= self@.subrange(0, i as int));
                if i == 0 {
                    assert(self@.subrange(0, 1) =~= seq![self@[0]]);
                }
            }
            i += 1;
            assert(s@ =~= line_text(mapping@, self@.subrange(0, i as int)));
        }
        assert(self@.subrange(0, self@.len() as int) =~= self@);
        s
    }
}

/// The labels of all the starred parts, together.
pub open spec fn star_labels(ps: Seq<PartV>) -> Set<Label>
    decreases ps.len(),
{
    if ps.len() == 0 {
        Set::empty()
    } else {
        star_labels(ps.drop_last()).union(
            if ps.last().0 == GroupType::Star { ps.last().1.to_set() } else { Set::empty() },
        )
    }
}

/// The total exponent of the parts without a star whose group is `g`.
pub open spec fn count_of(ps: Seq<PartV>, g: Seq<Label>) -> nat
    decreases ps.len(),
{
    if ps.len() == 0 {
        0
    } else {
        count_of(ps.drop_last(), g) + match ps.last().0 {
            GroupType::Many(n) => if ps.last().1 == g { n as nat } else { 0 },
            GroupType::Star => 0,
        }
    }
}

/// The group `g` merges into the starred part.
pub open spec fn absorbed(ps: Seq<PartV>, g: Seq<Label>) -> bool {
    has_star_spec(ps) && g.to_set() == star_labels(ps)
}

/// `r` is the normal form of `ps`: the starred parts become one starred part
/// holding all their labels; parts with the same group add up their
/// exponents, and a starred part absorbs them; parts of exponent zero go; the
/// parts are sorted.
pub open spec fn normalized_from(r: Seq<PartV>, ps: Seq<PartV>) -> bool {
    &&& parts_strictly_sorted(r)
    &&& forall|i: int| 0 <= i < r.len() ==> strictly_sorted(#[trigger] r[i].1)
    &&& has_star_spec(r) == has_star_spec(ps)
    &&& forall|i: int| 0 <= i < r.len() && (#[trigger] r[i]).0 == GroupType::Star ==> r[i].1.to_set() == star_labels(ps)
    &&& forall|i: int| 0 <= i < r.len() && (#[trigger] r[i]).0 != GroupType::Star ==> {
        &&& r[i].0 == GroupType::Many(count_of(ps, r[i].1) as u8)
        &&& count_of(ps, r[i].1) > 0
        &&& !absorbed(ps, r[i].1)
    }
    &&& forall|j: int| 0 <= j < ps.len() && (#[trigger] ps[j]).0 != GroupType::Star && count_of(ps, ps[j].1) > 0
        && !absorbed(ps, ps[j].1) ==> r.contains((GroupType::Many(count_of(ps, ps[j].1) as u8), ps[j].1))
}

pub proof fn lemma_count_prefix(ps: Seq<PartV>, n: int, g: Seq<Label>)
    requires
        0 <= n <= ps.len(),
    ensures
        count_of(ps.subrange(0, n), g) <= count_of(ps, g),
    decreases ps.len() - n,
{
    if n < ps.len() {
        lemma_count_prefix(ps, n + 1, g);
        assert(ps.subrange(0, n + 1).drop_last() =~= ps.subrange(0, n));
    } else {
        assert(ps.subrange(0, n) =~= ps);
    }
}

pub proof fn lemma_count_le_degree(ps: Seq<PartV>, g: Seq<Label>)
    ensures
        count_of(ps, g) <= degree_without_star_spec(ps),
    decreases ps.len(),
{
    if ps.len() > 0 {
        lemma_count_le_degree(ps.drop_last(), g);
    }
}

pub proof fn lemma_has_star_push(ps: Seq<PartV>, p: PartV)
    ensures
        has_star_spec(ps.push(p)) == (has_star_spec(ps) || p.0 == GroupType::Star),
{
    if has_star_spec(ps) {
        let k = choose|k: int| 0 <= k < ps.len() && (#[trigger] ps[k]).0 == GroupType::Star;
        assert(ps.push(p)[k] == ps[k]);
    }
    if p.0 == GroupType::Star {
        assert(ps.push(p)[ps.len() as int] == p);
    }
    if has_star_spec(ps.push(p)) {
        let k = choose|k: int| 0 <= k < ps.len() + 1 && (#[trigger] ps.push(p)[k]).0 == GroupType::Star;
        if k < ps.len() {
            assert(ps[k] == ps.push(p)[k]);
        }
    }
}

} // verus!
