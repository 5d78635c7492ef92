use vstd::prelude::*;
use std::collections::HashMap;

use crate::constraint::{labels_spec, lines_view, Constraint};
use crate::group::{copy_labels, strictly_sorted, Group, Label};
use crate::line::{line_text, names_all_parts, Line, PartV};
use crate::part::names_view;
use crate::reading::{constraint_read, lines_len, lines_scan, split_text_lines, text_lines};
use crate::text::{push_char, push_str, str_to_chars, string_from_chars};

verus! {

broadcast use vstd::std_specs::hash::group_hash_axioms;

/// A labels and the labels it stands for.
pub type LabelSet = (Label, Vec<Label>);

/// A locally checkable problem: the configurations allowed on the nodes
/// (active side) and on the edges (passive side), the names of the labels,
/// and what has been computed about it.
#[derive(Clone, Debug)]
pub struct Problem {
    pub active: Constraint,
    pub passive: Constraint,
    pub passive_gen: Option<Constraint>,
    pub mapping_label_text: Vec<(Label, String)>,
    pub mapping_label_oldlabels: Option<Vec<LabelSet>>,
    pub mapping_oldlabel_labels: Option<Vec<LabelSet>>,
    pub mapping_oldlabel_text: Option<Vec<(Label, String)>>,
    pub trivial_sets: Option<Vec<Vec<Label>>>,
    pub coloring_sets: Option<Vec<Vec<Label>>>,
    pub diagram_indirect: Option<Vec<(Label, Label)>>,
    pub diagram_indirect_old: Option<Vec<(Label, Label)>>,
    pub diagram_direct: Option<(Vec<LabelSet>, Vec<(Label, Label)>)>,
    pub orientation_given: Option<usize>,
    pub orientation_trivial_sets: Option<Vec<(Vec<Label>, Vec<Label>)>>,
    pub orientation_coloring_sets: Option<Vec<(Vec<Label>, Vec<Label>)>>,
    pub fixpoint_procedure_works: Option<bool>,
    pub marks_works: Option<bool>,
    pub demisifiable: Option<Vec<(Vec<Label>, Vec<Label>)>>,
    pub is_trivial_with_input: Option<bool>,
    pub triviality_with_input: Option<(Vec<(Label, String)>, Vec<LabelSet>)>,
    pub expressions: Option<String>,
}

/// The view of a list of labels with their names.
pub open spec fn label_texts_view(v: Seq<(Label, String)>) -> Seq<(Label, Seq<char>)> {
    v.map_values(|p: (Label, String)| (p.0, p.1@))
}

/// The view of a list of labels with sets of labels.
pub open spec fn label_sets_view(v: Seq<LabelSet>) -> Seq<(Label, Seq<Label>)> {
    v.map_values(|p: LabelSet| (p.0, p.1@))
}

/// Each label `i` with the `i`-th name.
pub open spec fn numbered(names: Seq<Seq<char>>) -> Seq<(Label, Seq<char>)> {
    Seq::new(names.len(), |i: int| (i as Label, names[i]))
}

/// The label names after reading `text` from `names`.
pub open spec fn names_after(text: Seq<char>, names: Seq<Seq<char>>) -> Seq<Seq<char>> {
    match lines_scan(text_lines(text), names) {
        Ok(res) => res.1,
        Err(_) => names,
    }
}

/// The problem has nothing computed about it yet.
pub open spec fn nothing_computed(p: Problem) -> bool {
    &&& p.passive_gen is None
    &&& p.trivial_sets is None
    &&& p.coloring_sets is None
    &&& p.diagram_indirect is None
    &&& p.diagram_direct is None
    &&& p.orientation_coloring_sets is None
    &&& p.orientation_trivial_sets is None
    &&& p.orientation_given is None
    &&& p.fixpoint_procedure_works is None
    &&& p.marks_works is None
    &&& p.demisifiable is None
    &&& p.is_trivial_with_input is None
    &&& p.triviality_with_input is None
    &&& p.expressions is None
}

/// What reading a problem from the text of its active side and the text of
/// its passive side gives: both constraints read with shared label names, the
/// labels numbered in order of appearance, and whether the two sides use
/// different labels; or the first error.
pub open spec fn problem_read(a: Seq<char>, p: Seq<char>, r: Result<(Problem, bool), &'static str>) -> bool {
    let n1 = names_after(a, Seq::empty());
    let n2 = names_after(p, n1);
    match r {
        Ok(res) => {
            &&& constraint_read(a, Seq::empty(), Ok(res.0.active), n1)
            &&& constraint_read(p, n1, Ok(res.0.passive), n2)
            &&& label_texts_view(res.0.mapping_label_text@) == numbered(n2)
            &&& res.1 == (labels_spec(res.0.active@) != labels_spec(res.0.passive@))
            &&& nothing_computed(res.0)
            &&& res.0.mapping_label_oldlabels is None
            &&& res.0.mapping_oldlabel_labels is None
            &&& res.0.mapping_oldlabel_text is None
            &&& res.0.diagram_indirect_old is None
        },
        Err(e) => {
            ||| exists|ra: Result<Constraint, &'static str>| #[trigger] constraint_read(a, Seq::empty(), ra, n1) && ra is Err && ra->Err_0@ == e@
            ||| exists|ra: Result<Constraint, &'static str>, rp: Result<Constraint, &'static str>|
                #[trigger] constraint_read(a, Seq::empty(), ra, n1) && ra is Ok
                && #[trigger] constraint_read(p, n1, rp, n2) && rp is Err && rp->Err_0@ == e@
        },
    }
}

/// The index of the first empty line of `ls` from `i` on, or the number of
/// lines.
pub open spec fn first_empty(ls: Seq<Seq<char>>, i: int) -> int
    decreases ls.len() - i,
{
    if i >= ls.len() {
        ls.len() as int
    } else if ls[i].len() == 0 {
        i
    } else {
        first_empty(ls, i + 1)
    }
}

/// Lines joined with `\n` between them.
pub open spec fn join_lines(ls: Seq<Seq<char>>) -> Seq<char>
    decreases ls.len(),
{
    if ls.len() == 0 {
        Seq::empty()
    } else if ls.len() == 1 {
        ls[0]
    } else {
        join_lines(ls.drop_last()) + seq!['\n'] + ls.last()
    }
}

/// The text of the active side: the lines before the first empty line.
pub open spec fn active_text(cs: Seq<char>) -> Seq<char> {
    let ls = text_lines(cs);
    join_lines(ls.subrange(0, first_empty(ls, 0)))
}

/// The text of the passive side: the lines after the first empty line, up to
/// the next one.
pub open spec fn passive_text(cs: Seq<char>) -> Seq<char> {
    let ls = text_lines(cs);
    let e = first_empty(ls, 0);
    if e >= ls.len() {
        Seq::empty()
    } else {
        join_lines(ls.subrange(e + 1, first_empty(ls, e + 1)))
    }
}

/// The names that a list of labels with names gives: a later entry of a label
/// replaces an earlier one.
pub open spec fn names_map(v: Seq<(Label, String)>) -> Map<Label, String>
    decreases v.len(),
{
    if v.len() == 0 {
        Map::empty()
    } else {
        names_map(v.drop_last()).insert(v.last().0, v.last().1)
    }
}

/// The lines, each written with the names of `m` and followed by `\n`.
pub open spec fn lines_text(m: Map<Label, String>, ls: Seq<Seq<PartV>>) -> Seq<char>
    decreases ls.len(),
{
    if ls.len() == 0 {
        Seq::empty()
    } else {
        lines_text(m, ls.drop_last()) + line_text(m, ls.last()) + seq!['\n']
    }
}

/// How a problem is written: its active lines, an empty line, its passive
/// lines.
pub open spec fn problem_text(m: Map<Label, String>, a: Seq<Seq<PartV>>, p: Seq<Seq<PartV>>) -> Seq<char> {
    lines_text(m, a) + seq!['\n'] + lines_text(m, p)
}

/// `m` names every label of every line.
pub open spec fn names_all_lines(m: Map<Label, String>, ls: Seq<Seq<PartV>>) -> bool {
    forall|k: int| 0 <= k < ls.len() ==> names_all_parts(m, #[trigger] ls[k])
}

/// Joins lines with `\n` between them.
fn join_text_lines(ls: &Vec<Vec<char>>, from: usize, to: usize) -> (r: String)
    requires
        from <= to <= ls@.len(),
    ensures
        r@ == join_lines(ls@.map_values(|t: Vec<char>| t@).subrange(from as int, to as int)),
{
    let ghost lv = ls@.map_values(|t: Vec<char>| t@);
    let mut cs: Vec<char> = Vec::new();
    let mut i: usize = from;
    while i < to
        invariant
            from <= i <= to <= ls@.len(),
            lv == ls@.map_values(|t: Vec<char>| t@),
            cs@ == join_lines(lv.subrange(from as int, i as int)),
        decreases to - i,
    {
        let ghost before = cs@;
        if i > from {
            cs.push('\n');
        }
        let t = &ls[i];
        let mut j: usize = 0;
        let ghost mid = cs@;
        while j < t.len()
            invariant
                j <= t@.len(),
                cs@ == mid + t@.subrange(0, j as int),
            decreases t@.len() - j,
        {
            cs.push(t[j]);
            j += 1;
            assert(cs@ =~= mid + t@.subrange(0, j as int));
        }
        proof {
            assert(t@.subrange(0, t@.len() as int) =~= t@);
            let s = lv.subrange(from as int, i + 1);
            assert(s.drop_last() =~= lv.subrange(from as int, i as int));
            assert(s.last() == t@);
            if i == from {
                assert(cs@ =~= s[0]);
            } else {
                assert(cs@ =~= join_lines(s.drop_last()) + seq!['\n'] + s.last());
            }
        }
        i += 1;
    }
    string_from_chars(&cs)
}

/// The index of the first empty line from `i` on.
fn find_empty(ls: &Vec<Vec<char>>, i: usize) -> (r: usize)
    requires
        i <= ls@.len(),
    ensures
        r == first_empty(ls@.map_values(|t: Vec<char>| t@), i as int),
        i <= r <= ls@.len(),
    decreases ls@.len() - i,
{
    if i >= ls.len() {
        ls.len()
    } else if ls[i].len() == 0 {
        i
    } else {
        find_empty(ls, i + 1)
    }
}

/// A copy of a list of labels with names.
pub fn copy_label_texts(v: &Vec<(Label, String)>) -> (r: Vec<(Label, String)>)
    ensures
        r@ == v@,
{
    let mut r: Vec<(Label, String)> = Vec::new();
    let mut i: usize = 0;
    while i < v.len()
        invariant
            i <= v@.len(),
            r@ == v@.subrange(0, i as int),
        decreases v@.len() - i,
    {
        let s = v[i].1.clone();
        r.push((v[i].0, s));
        i += 1;
        assert(r@ =~= v@.subrange(0, i as int));
    }
    assert(v@.subrange(0, v@.len() as int) =~= v@);
    r
}

/// A copy of a list of labels with sets of labels.
pub fn copy_label_sets(v: &Vec<LabelSet>) -> (r: Vec<LabelSet>)
    ensures
        label_sets_view(r@) == label_sets_view(v@),
{
    let mut r: Vec<LabelSet> = Vec::new();
    let mut i: usize = 0;
    while i < v.len()
        invariant
            i <= v@.len(),
            label_sets_view(r@) == label_sets_view(v@.subrange(0, i as int)),
        decreases v@.len() - i,
    {
        let s = copy_labels(&v[i].1);
        let ghost before = r@;
        r.push((v[i].0, s));
        i += 1;
        assert(label_sets_view(r@) =~= label_sets_view(before).push((v@[i - 1].0, v@[i - 1].1@)));
        assert(label_sets_view(r@) =~= label_sets_view(v@.subrange(0, i as int)));
    }
    assert(v@.subrange(0, v@.len() as int) =~= v@);
    r
}

/// A copy of an optional list of labels with sets of labels.
pub fn copy_opt_label_sets(v: &Option<Vec<LabelSet>>) -> (r: Option<Vec<LabelSet>>)
    ensures
        r is Some <==> v is Some,
        r is Some ==> label_sets_view(r->Some_0@) == label_sets_view(v->Some_0@),
{
    match v {
        Some(x) => Some(copy_label_sets(x)),
        None => None,
    }
}

/// A copy of an optional list of labels with names.
pub fn copy_opt_label_texts(v: &Option<Vec<(Label, String)>>) -> (r: Option<Vec<(Label, String)>>)
    ensures
        r is Some <==> v is Some,
        r is Some ==> r->Some_0@ == v->Some_0@,
{
    match v {
        Some(x) => {
            let c = copy_label_texts(x);
            assert(c@ == x@);
            Some(c)
        },
        None => None,
    }
}

/// A copy of an optional list of pairs of labels.
pub fn copy_opt_pairs(v: &Option<Vec<(Label, Label)>>) -> (r: Option<Vec<(Label, Label)>>)
    ensures
        r is Some <==> v is Some,
        r is Some ==> r->Some_0@ == v->Some_0@,
{
    match v {
        Some(x) => {
            let mut r: Vec<(Label, Label)> = Vec::new();
            let mut i: usize = 0;
            while i < x.len()
                invariant
                    i <= x@.len(),
                    r@ == x@.subrange(0, i as int),
                decreases x@.len() - i,
            {
                r.push(x[i]);
                i += 1;
                assert(r@ =~= x@.subrange(0, i as int));
            }
            assert(x@.subrange(0, x@.len() as int) =~= x@);
            Some(r)
        },
        None => None,
    }
}

impl Constraint {
    /// An equal copy of the constraint.
    pub fn duplicate(&self) -> (r: Constraint)
        ensures
            r@ == self@,
            r.degree == self.degree,
            r.is_maximized == self.is_maximized,
            self.wf() ==> r.wf(),
    {
        let mut lines: Vec<Line> = Vec::new();
        let mut i: usize = 0;
        while i < self.lines.len()
            invariant
                i <= self.lines@.len(),
                lines@.len() == i,
                forall|k: int| 0 <= k < i ==> (#[trigger] lines@[k])@ == self.lines@[k]@,
            decreases self.lines@.len() - i,
        {
            let l = self.lines[i].duplicate();
            lines.push(l);
            i += 1;
        }
        let r = Constraint { lines, is_maximized: self.is_maximized, degree: self.degree };
        assert(r@ =~= self@);
        r
    }
}

impl Problem {
    /// A problem with nothing computed about it.
    fn bare(active: Constraint, passive: Constraint, mapping_label_text: Vec<(Label, String)>) -> (r: Problem)
        ensures
            r.active == active,
            r.passive == passive,
            r.mapping_label_text == mapping_label_text,
            nothing_computed(r),
            r.mapping_label_oldlabels is None,
            r.mapping_oldlabel_labels is None,
            r.mapping_oldlabel_text is None,
            r.diagram_indirect_old is None,
    {
        Problem {
            active,
            passive,
            passive_gen: None,
            mapping_label_text,
            mapping_label_oldlabels: None,
            mapping_oldlabel_labels: None,
            mapping_oldlabel_text: None,
            trivial_sets: None,
            coloring_sets: None,
            diagram_indirect: None,
            diagram_indirect_old: None,
            diagram_direct: None,
            orientation_given: None,
            orientation_trivial_sets: None,
            orientation_coloring_sets: None,
            fixpoint_procedure_works: None,
            marks_works: None,
            demisifiable: None,
            is_trivial_with_input: None,
            triviality_with_input: None,
            expressions: None,
        }
    }

    /// The same problem with another passive side; what was computed about it
    /// is dropped, the label names are kept.
    pub fn replace_passive(&self, passive: Constraint) -> (r: Problem)
        ensures
            r.active@ == self.active@,
            r.active.degree == self.active.degree,
            r.active.is_maximized == self.active.is_maximized,
            r.passive == passive,
            r.mapping_label_text@ == self.mapping_label_text@,
            r.mapping_label_oldlabels is Some <==> self.mapping_label_oldlabels is Some,
            r.mapping_label_oldlabels is Some ==> label_sets_view(r.mapping_label_oldlabels->Some_0@) == label_sets_view(self.mapping_label_oldlabels->Some_0@),
            r.mapping_oldlabel_labels is Some <==> self.mapping_oldlabel_labels is Some,
            r.mapping_oldlabel_labels is Some ==> label_sets_view(r.mapping_oldlabel_labels->Some_0@) == label_sets_view(self.mapping_oldlabel_labels->Some_0@),
            r.mapping_oldlabel_text is Some <==> self.mapping_oldlabel_text is Some,
            r.mapping_oldlabel_text is Some ==> r.mapping_oldlabel_text->Some_0@ == self.mapping_oldlabel_text->Some_0@,
            r.diagram_indirect_old is None,
            nothing_computed(r),
    {
        let mut r = Problem::bare(self.active.duplicate(), passive, copy_label_texts(&self.mapping_label_text));
        r.mapping_label_oldlabels = copy_opt_label_sets(&self.mapping_label_oldlabels);
        r.mapping_oldlabel_labels = copy_opt_label_sets(&self.mapping_oldlabel_labels);
        r.mapping_oldlabel_text = copy_opt_label_texts(&self.mapping_oldlabel_text);
        r
    }

    /// Reads a problem from the texts of its two sides. Also says whether the
    /// two sides use different labels.
    pub fn from_string_active_passive(active: &str, passive: &str) -> (r: Result<(Problem, bool), &'static str>)
        requires
            active@.len() + passive@.len() < u32::MAX,
        ensures
            problem_read(active@, passive@, r),
    {
        let mut mapping: Vec<String> = Vec::new();
        let ghost n0 = names_view(mapping@);
        assert(n0 =~= Seq::<Seq<char>>::empty());
        let ra = Constraint::parse(active, &mut mapping);
        let ghost n1 = names_view(mapping@);
        let a = match ra {
            Ok(c) => c,
            Err(e) => {
                proof {
                    assert(constraint_read(active@, Seq::empty(), ra, names_after(active@, Seq::empty())));
                }
                return Err(e);
            },
        };
        proof {
            assert(n1 == names_after(active@, Seq::empty()));
        }
        let rp = Constraint::parse(passive, &mut mapping);
        let ghost n2 = names_view(mapping@);
        let p = match rp {
            Ok(c) => c,
            Err(e) => {
                proof {
                    assert(constraint_read(active@, Seq::empty(), Ok::<Constraint, &'static str>(a), n1));
                    assert(constraint_read(passive@, n1, rp, names_after(passive@, n1)));
                }
                return Err(e);
            },
        };
        proof {
            assert(n2 == names_after(passive@, n1));
        }
        let la = a.labels_appearing();
        let lp = p.labels_appearing();
        let ga = Group::from_set(&la);
        let gp = Group::from_set(&lp);
        let missing = !ga.same_as(&gp);
        proof {
            if ga@ == gp@ {
                assert(la@ == lp@);
            } else if la@ == lp@ {
                crate::normalize::lemma_sorted_same_set(ga@, gp@);
            }
        }
        let mut texts: Vec<(Label, String)> = Vec::new();
        let mut i: usize = 0;
        let ghost names = names_view(mapping@);
        while i < mapping.len()
            invariant
                names == names_view(mapping@),
                i <= mapping@.len(),
                mapping@.len() < u32::MAX,
                label_texts_view(texts@) == numbered(names).subrange(0, i as int),
            decreases mapping@.len() - i,
        {
            let ghost before = texts@;
            let s = mapping[i].clone();
            texts.push((i as Label, s));
            i += 1;
            assert(label_texts_view(texts@) =~= label_texts_view(before).push(((i - 1) as Label, names[i - 1])));
            assert(label_texts_view(texts@) =~= numbered(names).subrange(0, i as int));
        }
        assert(numbered(names).subrange(0, names.len() as int) =~= numbered(names));
        let prob = Problem::bare(a, p, texts);
        Ok((prob, missing))
    }

    /// Reads a problem: the lines of the active side, an empty line, the lines
    /// of the passive side.
    pub fn from_string(s: &str) -> (r: Result<Problem, &'static str>)
        requires
            s@.len() + 1 < u32::MAX,
        ensures
            exists|full: Result<(Problem, bool), &'static str>| #[trigger] problem_read(active_text(s@), passive_text(s@), full)
                && (full is Ok <==> r is Ok)
                && (r is Ok ==> r->Ok_0 == full->Ok_0.0)
                && (r is Err ==> r->Err_0 == full->Err_0),
    {
        let cs = str_to_chars(s);
        let ls = split_text_lines(&cs);
        let ghost lv = ls@.map_values(|t: Vec<char>| t@);
        let e1 = find_empty(&ls, 0);
        let a = join_text_lines(&ls, 0, e1);
        let p = if e1 < ls.len() {
            let e2 = find_empty(&ls, e1 + 1);
            join_text_lines(&ls, e1 + 1, e2)
        } else {
            String::new()
        };
        proof {
            assert(a@ == active_text(s@));
            assert(p@ == passive_text(s@));
            lemma_join_len(lv.subrange(0, e1 as int));
            lemma_first_empty_bounds(lv, 0);
            if e1 < lv.len() {
                let e2 = first_empty(lv, e1 + 1);
                lemma_first_empty_bounds(lv, e1 + 1);
                lemma_join_len(lv.subrange(e1 + 1, e2));
                lemma_sub_total(lv, 0, e1 as int, e1 + 1, e2);
            } else {
                lemma_sub_total(lv, 0, e1 as int, e1 as int, e1 as int);
            }
        }
        let full = Problem::from_string_active_passive(a.as_str(), p.as_str());
        match full {
            Ok(x) => Ok(x.0),
            Err(e) => Err(e),
        }
    }

    /// The labels that occur in the problem, in increasing order.
    pub fn labels(&self) -> (r: Vec<Label>)
        ensures
            strictly_sorted(r@),
            r@.to_set() == labels_spec(self.active@).union(labels_spec(self.passive@)),
    {
        let ga = Group::from_set(&self.active.labels_appearing());
        let gp = Group::from_set(&self.passive.labels_appearing());
        let g = ga.union(&gp);
        g.0
    }

    /// Whether some label of the direct diagram stands for several labels.
    pub fn is_mergeable(&self) -> (r: bool)
        ensures
            r == (self.diagram_direct is Some && exists|k: int| 0 <= k < self.diagram_direct->Some_0.0@.len()
                && (#[trigger] self.diagram_direct->Some_0.0@[k]).1@.len() > 1),
    {
        match &self.diagram_direct {
            None => false,
            Some(d) => {
                let v = &d.0;
                let mut k: usize = 0;
                while k < v.len()
                    invariant
                        self.diagram_direct is Some,
                        self.diagram_direct->Some_0.0@ == v@,
                        k <= v@.len(),
                        forall|q: int| 0 <= q < k ==> (#[trigger] v@[q]).1@.len() <= 1,
                    decreases v@.len() - k,
                {
                    if v[k].1.len() > 1 {
                        assert((self.diagram_direct->Some_0.0@[k as int]).1@.len() > 1);
                        return true;
                    }
                    k += 1;
                }
                false
            },
        }
    }

    /// Writes the problem: the active lines, an empty line, the passive lines,
    /// each line followed by `\n`, with the label names of `mapping_label_text`.
    pub fn to_string(&self) -> (r: String)
        requires
            names_all_lines(names_map(self.mapping_label_text@), self.active@),
            names_all_lines(names_map(self.mapping_label_text@), self.passive@),
        ensures
            r@ == problem_text(names_map(self.mapping_label_text@), self.active@, self.passive@),
    {
        let mut m: HashMap<Label, String> = HashMap::new();
        let mut i: usize = 0;
        let v = &self.mapping_label_text;
        while i < v.len()
            invariant
                i <= v@.len(),
                m@ == names_map(v@.subrange(0, i as int)),
            decreases v@.len() - i,
        {
            let s = v[i].1.clone();
            m.insert(v[i].0, s);
            proof {
                let sub = v@.subrange(0, i + 1);
                assert(sub.drop_last() =~= v@.subrange(0, i as int));
            }
            i += 1;
        }
        assert(v@.subrange(0, v@.len() as int) =~= v@);
        let mut s = String::new();
        write_lines(&mut s, &m, &self.active);
        push_char(&mut s, '\n');
        write_lines(&mut s, &m, &self.passive);
        s
    }
}

/// Appends the lines of a constraint, each followed by `\n`.
fn write_lines(s: &mut String, m: &HashMap<Label, String>, c: &Constraint)
    requires
        names_all_lines(m@, c@),
    ensures
        final(s)@ == old(s)@ + lines_text(m@, c@),
{
    let ghost start = s@;
    let mut k: usize = 0;
    while k < c.lines.len()
        invariant
            names_all_lines(m@, c@),
            k <= c@.len(),
            s@ == start + lines_text(m@, c@.subrange(0, k as int)),
        decreases c@.len() - k,
    {
        assert(names_all_parts(m@, c@[k as int]));
        let t = c.lines[k].to_string(m);
        push_str(s, t.as_str());
        push_char(s, '\n');
        proof {
            let sub = c@.subrange(0, k + 1);
            assert(sub.drop_last() =~= c@.subrange(0, k as int));
            assert(sub.last() == c.lines@[k as int]@);
            assert(s@ =~= start + lines_text(m@, sub));
        }
        k += 1;
    }
    assert(c@.subrange(0, c@.len() as int) =~= c@);
}

proof fn lemma_join_len(ls: Seq<Seq<char>>)
    ensures
        join_lines(ls).len() <= lines_len(ls),
    decreases ls.len(),
{
    if ls.len() > 1 {
        lemma_join_len(ls.drop_last());
    }
}

proof fn lemma_first_empty_bounds(ls: Seq<Seq<char>>, i: int)
    requires
        0 <= i <= ls.len(),
    ensures
        i <= first_empty(ls, i) <= ls.len(),
    decreases ls.len() - i,
{
    if i < ls.len() && ls[i].len() != 0 {
        lemma_first_empty_bounds(ls, i + 1);
    }
}

proof fn lemma_lines_len_concat(x: Seq<Seq<char>>, y: Seq<Seq<char>>)
    ensures
        lines_len(x + y) == lines_len(x) + lines_len(y),
    decreases y.len(),
{
    if y.len() > 0 {
        lemma_lines_len_concat(x, y.drop_last());
        assert((x + y).drop_last() =~= x + y.drop_last());
        assert((x + y).last() == y.last());
    } else {
        assert(x + y =~= x);
    }
}

proof fn lemma_sub_total(ls: Seq<Seq<char>>, a: int, b: int, c: int, d: int)
    requires
        0 <= a <= b <= c <= d <= ls.len(),
    ensures
        lines_len(ls.subrange(a, b)) + lines_len(ls.subrange(c, d)) <= lines_len(ls),
{
    let n = ls.len() as int;
    let s0 = ls.subrange(0, a);
    let s1 = ls.subrange(a, b);
    let s2 = ls.subrange(b, c);
    let s3 = ls.subrange(c, d);
    let s4 = ls.subrange(d, n);
    assert(ls =~= s0 + s1 + s2 + s3 + s4);
    lemma_lines_len_concat(s0, s1);
    lemma_lines_len_concat(s0 + s1, s2);
    lemma_lines_len_concat(s0 + s1 + s2, s3);
    lemma_lines_len_concat(s0 + s1 + s2 + s3, s4);
}

} // verus!
