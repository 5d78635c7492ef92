use vstd::prelude::*;
use std::collections::HashMap;

use crate::group::Label;
use crate::problem::{label_texts_view, LabelSet, Problem};
use crate::sorting::{sets_view, sort_label_sets, sort_labels, sorted_label_sets, sorted_labels, LabelSetV};
use crate::text::{push_char, push_str, string_from_chars};

verus! {

broadcast use {vstd::std_specs::hash::group_hash_axioms, vstd::seq_lib::group_to_multiset_ensures};

/// The labels named in a list of labels with names.
pub open spec fn named_labels(v: Seq<(Label, Seq<char>)>) -> Set<Label> {
    Set::new(|l: Label| exists|k: int| 0 <= k < v.len() && (#[trigger] v[k]).0 == l)
}

/// No label is named twice.
pub open spec fn labels_distinct(v: Seq<(Label, Seq<char>)>) -> bool {
    forall|a: int, b: int| 0 <= a < b < v.len() ==> v[a].0 != v[b].0
}

/// No name is given twice.
pub open spec fn names_distinct(v: Seq<(Label, Seq<char>)>) -> bool {
    forall|a: int, b: int| 0 <= a < b < v.len() ==> v[a].1 != v[b].1
}

/// A character that a name may not hold.
pub open spec fn forbidden_char(c: char) -> bool {
    c == '(' || c == ')' || c == '*' || c == '^' || c == ' '
}

/// Some name holds a forbidden character.
pub open spec fn has_forbidden(v: Seq<(Label, Seq<char>)>) -> bool {
    exists|k: int, i: int| 0 <= k < v.len() && 0 <= i < v[k].1.len() && forbidden_char(#[trigger] v[k].1[i])
}

/// How a name is written: alone when it is a single byte (one ASCII
/// character), else in parentheses.
pub open spec fn written_name(s: Seq<char>) -> Seq<char> {
    if s.len() == 1 && (s[0] as u32) < 128 {
        s
    } else {
        seq!['('] + s + seq![')']
    }
}

/// A renaming goes through only if no new name holds `(`, `)`, `*`, `^` or a
/// space, the characters that the reader gives a meaning to; a name holding
/// one of them is refused with its own error unless the renaming was refused
/// for an earlier reason.
pub proof fn law_rename_refuses_special_characters(current: Seq<(Label, Seq<char>)>, v: Seq<(Label, Seq<char>)>)
    ensures
        rename_result(current, v) is Ok ==> forall|k: int, i: int| 0 <= k < v.len() && 0 <= i < v[k].1.len() ==> {
            let c = #[trigger] v[k].1[i];
            c != '(' && c != ')' && c != '*' && c != '^' && c != ' '
        },
        (exists|k: int, i: int| 0 <= k < v.len() && 0 <= i < v[k].1.len() && {
            let c = #[trigger] v[k].1[i];
            c == '(' || c == ')' || c == '*' || c == '^' || c == ' '
        }) && named_labels(v) == named_labels(current) && labels_distinct(v) && names_distinct(v)
            ==> rename_result(current, v) == Err::<Seq<(Label, Seq<char>)>, Seq<char>>("Some label contains characters that are not allowed"@),
{
    if exists|k: int, i: int| 0 <= k < v.len() && 0 <= i < v[k].1.len() && {
        let c = #[trigger] v[k].1[i];
        c == '(' || c == ')' || c == '*' || c == '^' || c == ' '
    } {
        let (k, i) = choose|k: int, i: int| 0 <= k < v.len() && 0 <= i < v[k].1.len() && {
            let c = #[trigger] v[k].1[i];
            c == '(' || c == ')' || c == '*' || c == '^' || c == ' '
        };
        assert(forbidden_char(v[k].1[i]));
        assert(has_forbidden(v));
    }
}

/// The outcome of renaming the labels named in `current` as `v` says.
pub open spec fn rename_result(current: Seq<(Label, Seq<char>)>, v: Seq<(Label, Seq<char>)>) -> Result<Seq<(Label, Seq<char>)>, Seq<char>> {
    if named_labels(v) != named_labels(current) || !labels_distinct(v) {
        Err("There is something wrong with the given renaming"@)
    } else if !names_distinct(v) {
        Err("Labels are not unique"@)
    } else if has_forbidden(v) {
        Err("Some label contains characters that are not allowed"@)
    } else {
        Ok(v.map_values(|p: (Label, Seq<char>)| (p.0, written_name(p.1))))
    }
}

/// Whether `l` is named in `v`.
fn names_label(v: &Vec<(Label, String)>, l: Label) -> (r: bool)
    ensures
        r == named_labels(label_texts_view(v@)).contains(l),
{
    let mut k: usize = 0;
    while k < v.len()
        invariant
            k <= v@.len(),
            forall|q: int| 0 <= q < k ==> v@[q].0 != l,
        decreases v@.len() - k,
    {
        if v[k].0 == l {
            assert(label_texts_view(v@)[k as int].0 == l);
            return true;
        }
        k += 1;
    }
    proof {
        if named_labels(label_texts_view(v@)).contains(l) {
            let q = choose|q: int| 0 <= q < v@.len() && (#[trigger] label_texts_view(v@)[q]).0 == l;
        }
    }
    false
}

impl Problem {
    /// Renames the labels: `v` gives a new name to each label of the problem,
    /// each label once, no name twice; names may not hold `(`, `)`, `*`, `^`
    /// or a space. A name longer than one byte is put in parentheses.
    pub fn rename(&mut self, v: &Vec<(Label, String)>) -> (r: Result<(), &'static str>)
        ensures
            ({
                let res = rename_result(label_texts_view(old(self).mapping_label_text@), label_texts_view(v@));
                &&& r is Ok <==> res is Ok
                &&& r is Err ==> r->Err_0@ == res->Err_0
                &&& r is Ok ==> label_texts_view(final(self).mapping_label_text@) == res->Ok_0
                &&& r is Err ==> final(self).mapping_label_text@ == old(self).mapping_label_text@
            }),
            *final(self) == (Problem { mapping_label_text: final(self).mapping_label_text, ..*old(self) }),
            r is Err ==> *final(self) == *old(self),
            r is Ok ==> forall|k: int, i: int| 0 <= k < v@.len() && 0 <= i < v@[k].1@.len() ==> {
                let c = #[trigger] v@[k].1@[i];
                c != '(' && c != ')' && c != '*' && c != '^' && c != ' '
            },
    {
        proof {
            law_rename_refuses_special_characters(label_texts_view(self.mapping_label_text@), label_texts_view(v@));
            assert forall|k: int| 0 <= k < v@.len() implies label_texts_view(v@)[k].1 == (#[trigger] v@[k]).1@ by {}
        }
        let ghost cur = label_texts_view(self.mapping_label_text@);
        let ghost vv = label_texts_view(v@);
        // the labels of `v` are those of the problem, each once
        let mut ok = true;
        let mut k: usize = 0;
        while k < v.len()
            invariant
                k <= v@.len(),
                vv == label_texts_view(v@),
                cur == label_texts_view(self.mapping_label_text@),
                ok <==> forall|q: int| 0 <= q < k ==> named_labels(cur).contains(#[trigger] vv[q].0),
            decreases v@.len() - k,
        {
            assert(vv[k as int].0 == v@[k as int].0);
            if !names_label(&self.mapping_label_text, v[k].0) {
                ok = false;
            }
            k += 1;
        }
        let mut k: usize = 0;
        while k < self.mapping_label_text.len()
            invariant
                k <= cur.len(),
                vv == label_texts_view(v@),
                cur == label_texts_view(self.mapping_label_text@),
                ok <==> (forall|q: int| 0 <= q < vv.len() ==> named_labels(cur).contains(#[trigger] vv[q].0))
                    && (forall|q: int| 0 <= q < k ==> named_labels(vv).contains(#[trigger] cur[q].0)),
            decreases cur.len() - k,
        {
            assert(cur[k as int].0 == self.mapping_label_text@[k as int].0);
            if !names_label(v, self.mapping_label_text[k].0) {
                ok = false;
            }
            k += 1;
        }
        let mut a: usize = 0;
        while a < v.len()
            invariant
                a <= v@.len(),
                vv == label_texts_view(v@),
                ok <==> (forall|q: int| 0 <= q < vv.len() ==> named_labels(cur).contains(#[trigger] vv[q].0))
                    && (forall|q: int| 0 <= q < cur.len() ==> named_labels(vv).contains(#[trigger] cur[q].0))
                    && (forall|x: int, y: int| 0 <= x < y < vv.len() && x < a ==> vv[x].0 != vv[y].0),
            decreases v@.len() - a,
        {
            let mut b: usize = a + 1;
            while b < v.len()
                invariant
                    a < b <= v@.len(),
                    vv == label_texts_view(v@),
                    ok <==> (forall|q: int| 0 <= q < vv.len() ==> named_labels(cur).contains(#[trigger] vv[q].0))
                        && (forall|q: int| 0 <= q < cur.len() ==> named_labels(vv).contains(#[trigger] cur[q].0))
                        && (forall|x: int, y: int| 0 <= x < y < vv.len() && x < a ==> vv[x].0 != vv[y].0)
                        && (forall|y: int| a < y < b ==> vv[a as int].0 != vv[y].0),
                decreases v@.len() - b,
            {
                assert(vv[a as int].0 == v@[a as int].0 && vv[b as int].0 == v@[b as int].0);
                if v[a].0 == v[b].0 {
                    ok = false;
                }
                b += 1;
            }
            a += 1;
        }
        proof {
            let same = named_labels(vv) =~= named_labels(cur);
            if ok {
                assert forall|l: Label| named_labels(vv).contains(l) implies named_labels(cur).contains(l) by {
                    let q = choose|q: int| 0 <= q < vv.len() && (#[trigger] vv[q]).0 == l;
                }
                assert forall|l: Label| named_labels(cur).contains(l) implies named_labels(vv).contains(l) by {
                    let q = choose|q: int| 0 <= q < cur.len() && (#[trigger] cur[q]).0 == l;
                }
                assert(named_labels(vv) =~= named_labels(cur));
            } else {
                if named_labels(vv) == named_labels(cur) && labels_distinct(vv) {
                    assert forall|q: int| 0 <= q < vv.len() implies named_labels(cur).contains(#[trigger] vv[q].0) by {
                        assert(named_labels(vv).contains(vv[q].0));
                    }
                    assert forall|q: int| 0 <= q < cur.len() implies named_labels(vv).contains(#[trigger] cur[q].0) by {
                        assert(named_labels(cur).contains(cur[q].0));
                    }
                }
            }
        }
        if !ok {
            return Err("There is something wrong with the given renaming");
        }
        // no name twice
        let mut a: usize = 0;
        while a < v.len()
            invariant
                a <= v@.len(),
                vv == label_texts_view(v@),
                cur == label_texts_view(old(self).mapping_label_text@),
                self.mapping_label_text@ == old(self).mapping_label_text@,
                named_labels(vv) == named_labels(cur),
                labels_distinct(vv),
                forall|x: int, y: int| 0 <= x < y < vv.len() && x < a ==> vv[x].1 != vv[y].1,
            decreases v@.len() - a,
        {
            let mut b: usize = a + 1;
            while b < v.len()
                invariant
                    a < b <= v@.len(),
                    vv == label_texts_view(v@),
                    cur == label_texts_view(old(self).mapping_label_text@),
                    self.mapping_label_text@ == old(self).mapping_label_text@,
                    named_labels(vv) == named_labels(cur),
                    labels_distinct(vv),
                    forall|x: int, y: int| 0 <= x < y < vv.len() && x < a ==> vv[x].1 != vv[y].1,
                    forall|y: int| a < y < b ==> vv[a as int].1 != vv[y].1,
                decreases v@.len() - b,
            {
                assert(vv[a as int].1 == v@[a as int].1@ && vv[b as int].1 == v@[b as int].1@);
                if v[a].1 == v[b].1 {
                    assert(!names_distinct(vv));
                    return Err("Labels are not unique");
                }
                b += 1;
            }
            a += 1;
        }
        // allowed characters, and the written names
        let mut renaming: Vec<(Label, String)> = Vec::new();
        let mut k: usize = 0;
        while k < v.len()
            invariant
                k <= v@.len(),
                vv == label_texts_view(v@),
                cur == label_texts_view(old(self).mapping_label_text@),
                self.mapping_label_text@ == old(self).mapping_label_text@,
                named_labels(vv) == named_labels(cur),
                labels_distinct(vv),
                names_distinct(vv),
                label_texts_view(renaming@) == vv.subrange(0, k as int).map_values(|p: (Label, Seq<char>)| (p.0, written_name(p.1))),
                forall|q: int, i: int| 0 <= q < k && 0 <= i < vv[q].1.len() ==> !forbidden_char(#[trigger] vv[q].1[i]),
            decreases v@.len() - k,
        {
            let cs = crate::text::str_to_chars(v[k].1.as_str());
            assert(vv[k as int].1 == v@[k as int].1@);
            let mut i: usize = 0;
            while i < cs.len()
                invariant
                    i <= cs@.len(),
                    cs@ == vv[k as int].1,
                    k < vv.len(),
                    vv == label_texts_view(v@),
                    cur == label_texts_view(old(self).mapping_label_text@),
                    self.mapping_label_text@ == old(self).mapping_label_text@,
                    named_labels(vv) == named_labels(cur),
                    labels_distinct(vv),
                    names_distinct(vv),
                    forall|j: int| 0 <= j < i ==> !forbidden_char(#[trigger] cs@[j]),
                decreases cs@.len() - i,
            {
                let c = cs[i];
                if c == '(' || c == ')' || c == '*' || c == '^' || c == ' ' {
                    proof {
                        assert(forbidden_char(vv[k as int].1[i as int]));
                        assert(has_forbidden(vv));
                    }
                    return Err("Some label contains characters that are not allowed");
                }
                i += 1;
            }
            let name = if cs.len() == 1 && (cs[0] as u32) < 128 {
                v[k].1.clone()
            } else {
                let mut s = String::new();
                push_char(&mut s, '(');
                push_str(&mut s, v[k].1.as_str());
                push_char(&mut s, ')');
                s
            };
            assert(name@ == written_name(vv[k as int].1));
            let ghost before = renaming@;
            renaming.push((v[k].0, name));
            proof {
                assert(label_texts_view(renaming@) =~= label_texts_view(before).push((vv[k as int].0, written_name(vv[k as int].1))));
                assert(vv.subrange(0, k + 1) =~= vv.subrange(0, k as int).push(vv[k as int]));
                assert(label_texts_view(renaming@) =~= vv.subrange(0, k + 1).map_values(|p: (Label, Seq<char>)| (p.0, written_name(p.1))));
            }
            k += 1;
        }
        assert(vv.subrange(0, vv.len() as int) =~= vv);
        self.mapping_label_text = renaming;
        Ok(())
    }
}

/// `a` reaches `b` in the diagram given by its pairs.
pub open spec fn reaches(pairs: Seq<(Label, Label)>, a: Label, b: Label) -> bool {
    pairs.contains((a, b))
}

/// With a diagram, label `x` of the set `o` is a generator unless another
/// label of `o` reaches it without being reached back.
pub open spec fn kept_by_diagram(pairs: Seq<(Label, Label)>, o: Seq<Label>, x: Label) -> bool {
    forall|i: int| 0 <= i < o.len() ==> (x == #[trigger] o[i] || !reaches(pairs, o[i], x) || reaches(pairs, x, o[i]))
}

/// Without a diagram, label `x` of the set `o` is a generator when no set of
/// `sets` that holds it is smaller than `o`.
pub open spec fn kept_by_size(sets: Seq<Seq<Label>>, o: Seq<Label>, x: Label) -> bool {
    forall|k: int| 0 <= k < sets.len() && (#[trigger] sets[k]).contains(x) ==> sets[k].len() >= o.len()
}

/// The labels of `s` that are generators of `o`, in order.
pub open spec fn generators_in(diagram: Option<Seq<(Label, Label)>>, sets: Seq<Seq<Label>>, o: Seq<Label>, s: Seq<Label>) -> Seq<Label>
    decreases s.len(),
{
    if s.len() == 0 {
        Seq::empty()
    } else {
        let prev = generators_in(diagram, sets, o, s.drop_last());
        let keep = match diagram {
            Some(pairs) => kept_by_diagram(pairs, o, s.last()),
            None => kept_by_size(sets, o, s.last()),
        };
        if keep { prev.push(s.last()) } else { prev }
    }
}

/// `g` is the list of generators of the set `o`: its generators in increasing
/// order; without a diagram and without generators, `o` itself.
pub open spec fn generators_ok(diagram: Option<Seq<(Label, Label)>>, sets: Seq<Seq<Label>>, o: Seq<Label>, g: Seq<Label>) -> bool {
    let f = generators_in(diagram, sets, o, o);
    if diagram is None && f.len() == 0 {
        g == o
    } else {
        sorted_labels(g) && g.to_multiset() == f.to_multiset()
    }
}

/// `r` lists, for each label with its set of old labels in `old`, the label
/// with the generators of the set, sorted.
pub open spec fn generators_list(diagram: Option<Seq<(Label, Label)>>, old: Seq<LabelSetV>, r: Seq<LabelSetV>) -> bool {
    &&& sorted_label_sets(r)
    &&& exists|gens: Seq<LabelSetV>| {
        &&& gens.len() == old.len()
        &&& forall|i: int| 0 <= i < old.len() ==> (#[trigger] gens[i]).0 == old[i].0
            && generators_ok(diagram, old.map_values(|p: LabelSetV| p.1), old[i].1, gens[i].1)
        &&& #[trigger] r.to_multiset() == gens.to_multiset()
    }
}

/// The view of an optional diagram.
pub open spec fn opt_pairs_view(d: Option<Vec<(Label, Label)>>) -> Option<Seq<(Label, Label)>> {
    match d {
        Some(v) => Some(v@),
        None => None,
    }
}

/// Whether `pairs` holds `(a, b)`.
fn has_pair(pairs: &Vec<(Label, Label)>, a: Label, b: Label) -> (r: bool)
    ensures
        r == reaches(pairs@, a, b),
{
    let mut k: usize = 0;
    while k < pairs.len()
        invariant
            k <= pairs@.len(),
            forall|q: int| 0 <= q < k ==> pairs@[q] != (a, b),
        decreases pairs@.len() - k,
    {
        if pairs[k].0 == a && pairs[k].1 == b {
            assert(pairs@[k as int] == (a, b));
            return true;
        }
        k += 1;
    }
    false
}

/// The generators of `o`.
fn generators(diagram: &Option<Vec<(Label, Label)>>, old: &Vec<LabelSet>, o: &Vec<Label>) -> (r: Vec<Label>)
    ensures
        generators_ok(
            opt_pairs_view(*diagram),
            sets_view(old@).map_values(|p: LabelSetV| p.1),
            o@,
            r@,
        ),
{
    let ghost dv = opt_pairs_view(*diagram);
    let ghost sets = sets_view(old@).map_values(|p: LabelSetV| p.1);
    let mut f: Vec<Label> = Vec::new();
    let mut i: usize = 0;
    while i < o.len()
        invariant
            i <= o@.len(),
            dv == opt_pairs_view(*diagram),
            sets == sets_view(old@).map_values(|p: LabelSetV| p.1),
            f@ == generators_in(dv, sets, o@, o@.subrange(0, i as int)),
        decreases o@.len() - i,
    {
        let x = o[i];
        let keep = match diagram {
            Some(pairs) => {
                let mut ok = true;
                let mut j: usize = 0;
                while j < o.len()
                    invariant
                        j <= o@.len(),
                        ok <==> forall|q: int| 0 <= q < j ==> (x == #[trigger] o@[q] || !reaches(pairs@, o@[q], x) || reaches(pairs@, x, o@[q])),
                    decreases o@.len() - j,
                {
                    let y = o[j];
                    if !(x == y || !has_pair(pairs, y, x) || has_pair(pairs, x, y)) {
                        ok = false;
                    }
                    j += 1;
                }
                ok
            },
            None => {
                let mut ok = true;
                let mut k: usize = 0;
                while k < old.len()
                    invariant
                        k <= old@.len(),
                        sets == sets_view(old@).map_values(|p: LabelSetV| p.1),
                        ok <==> forall|q: int| 0 <= q < k && (#[trigger] sets[q]).contains(x) ==> sets[q].len() >= o@.len(),
                    decreases old@.len() - k,
                {
                    assert(sets[k as int] == old@[k as int].1@);
                    let s = &old[k].1;
                    let mut has = false;
                    let mut m: usize = 0;
                    while m < s.len()
                        invariant
                            m <= s@.len(),
                            has <==> exists|q: int| 0 <= q < m && s@[q] == x,
                        decreases s@.len() - m,
                    {
                        if s[m] == x {
                            has = true;
                        }
                        m += 1;
                    }
                    if has && s.len() < o.len() {
                        ok = false;
                    }
                    k += 1;
                }
                ok
            },
        };
        proof {
            let sub = o@.subrange(0, i + 1);
            assert(sub.drop_last() =~= o@.subrange(0, i as int));
            assert(sub.last() == x);
        }
        if keep {
            f.push(x);
        }
        i += 1;
    }
    assert(o@.subrange(0, o@.len() as int) =~= o@);
    if diagram.is_none() && f.len() == 0 {
        crate::group::copy_labels(o)
    } else {
        sort_labels(&f)
    }
}

impl Problem {
    /// For each label of the problem, the old labels that generate it: after
    /// a speedup, each label stands for a set of old labels, and its
    /// generators are the old labels of the set that no other label of the
    /// set reaches in the old diagram without being reached back; without the
    /// old diagram, those that no smaller set holds. Sorted.
    pub fn mapping_label_generators(&self) -> (r: Vec<LabelSet>)
        requires
            self.mapping_label_oldlabels is Some,
        ensures
            generators_list(
                opt_pairs_view(self.diagram_indirect_old),
                sets_view(self.mapping_label_oldlabels->Some_0@),
                sets_view(r@),
            ),
    {
        let old = match &self.mapping_label_oldlabels {
            Some(o) => o,
            None => { return Vec::new(); },
        };
        let ghost dv = opt_pairs_view(self.diagram_indirect_old);
        let ghost ov = sets_view(old@);
        let mut result: Vec<LabelSet> = Vec::new();
        let mut i: usize = 0;
        while i < old.len()
            invariant
                i <= old@.len(),
                ov == sets_view(old@),
                dv == opt_pairs_view(self.diagram_indirect_old),
                result@.len() == i,
                forall|q: int| 0 <= q < i ==> (#[trigger] sets_view(result@)[q]).0 == ov[q].0
                    && generators_ok(dv, ov.map_values(|p: LabelSetV| p.1), ov[q].1, sets_view(result@)[q].1),
            decreases old@.len() - i,
        {
            let g = generators(&self.diagram_indirect_old, old, &old[i].1);
            let ghost before = result@;
            result.push((old[i].0, g));
            proof {
                assert(sets_view(result@) =~= sets_view(before).push((old@[i as int].0, g@)));
                assert forall|q: int| 0 <= q < i + 1 implies (#[trigger] sets_view(result@)[q]).0 == ov[q].0
                    && generators_ok(dv, ov.map_values(|p: LabelSetV| p.1), ov[q].1, sets_view(result@)[q].1) by {
                    if q < i {
                        assert(sets_view(result@)[q] == sets_view(before)[q]);
                    }
                }
            }
            i += 1;
        }
        let ghost gens = sets_view(result@);
        let r = sort_label_sets(result);
        proof {
            assert(sets_view(r@).to_multiset() == gens.to_multiset());
        }
        r
    }
}

/// A name without its parentheses.
pub open spec fn strip_parens(s: Seq<char>) -> Seq<char>
    decreases s.len(),
{
    if s.len() == 0 {
        Seq::empty()
    } else if s.last() == '(' || s.last() == ')' {
        strip_parens(s.drop_last())
    } else {
        strip_parens(s.drop_last()).push(s.last())
    }
}

/// The names of the labels of `g`, without parentheses, separated by commas.
pub open spec fn joined_names(m: Map<Label, String>, g: Seq<Label>) -> Seq<char>
    decreases g.len(),
{
    if g.len() == 0 {
        Seq::empty()
    } else if g.len() == 1 {
        strip_parens(m[g[0]]@)
    } else {
        joined_names(m, g.drop_last()) + seq![','] + strip_parens(m[g.last()]@)
    }
}

/// The name of a label after renaming by generators: the names of its
/// generators in angle brackets.
pub open spec fn angle_name(m: Map<Label, String>, g: Seq<Label>) -> Seq<char> {
    seq!['<'] + joined_names(m, g) + seq!['>']
}

/// The generators of each label, named.
pub open spec fn generator_names(m: Map<Label, String>, gs: Seq<LabelSetV>) -> Seq<(Label, Seq<char>)> {
    gs.map_values(|p: LabelSetV| (p.0, angle_name(m, p.1)))
}

/// Every label of a generator list is a label of its set.
proof fn lemma_generators_in_from(diagram: Option<Seq<(Label, Label)>>, sets: Seq<Seq<Label>>, o: Seq<Label>, s: Seq<Label>)
    ensures
        forall|i: int| 0 <= i < generators_in(diagram, sets, o, s).len() ==> s.contains(#[trigger] generators_in(diagram, sets, o, s)[i]),
    decreases s.len(),
{
    if s.len() > 0 {
        lemma_generators_in_from(diagram, sets, o, s.drop_last());
        let prev = generators_in(diagram, sets, o, s.drop_last());
        assert forall|i: int| 0 <= i < prev.len() implies s.contains(#[trigger] prev[i]) by {
            let k = choose|k: int| 0 <= k < s.drop_last().len() && s.drop_last()[k] == prev[i];
            assert(s[k] == prev[i]);
        }
        assert(s[s.len() - 1] == s.last());
        let cur = generators_in(diagram, sets, o, s);
        assert forall|i: int| 0 <= i < cur.len() implies s.contains(#[trigger] cur[i]) by {
            if i < prev.len() {
                assert(cur[i] == prev[i]);
            }
        }
    }
}

/// Every label of the generators of `o` is a label of `o`.
proof fn lemma_generators_ok_from(diagram: Option<Seq<(Label, Label)>>, sets: Seq<Seq<Label>>, o: Seq<Label>, g: Seq<Label>)
    requires
        generators_ok(diagram, sets, o, g),
    ensures
        forall|i: int| 0 <= i < g.len() ==> o.contains(#[trigger] g[i]),
{
    broadcast use vstd::multiset::group_multiset_axioms;
    let f = generators_in(diagram, sets, o, o);
    lemma_generators_in_from(diagram, sets, o, o);
    if !(diagram is None && f.len() == 0) {
        assert forall|i: int| 0 <= i < g.len() implies o.contains(#[trigger] g[i]) by {
            assert(g.to_multiset().count(g[i]) > 0);
            assert(f.to_multiset().count(g[i]) > 0);
            assert(f.contains(g[i]));
            let k = choose|k: int| 0 <= k < f.len() && f[k] == g[i];
        }
    }
}

/// A label named in the list is a key of its names.
proof fn lemma_names_map_has(v: Seq<(Label, String)>, l: Label)
    requires
        exists|k: int| 0 <= k < v.len() && (#[trigger] v[k]).0 == l,
    ensures
        crate::problem::names_map(v).contains_key(l),
    decreases v.len(),
{
    if v.last().0 != l {
        let k = choose|k: int| 0 <= k < v.len() && (#[trigger] v[k]).0 == l;
        assert(v.drop_last()[k] == v[k]);
        lemma_names_map_has(v.drop_last(), l);
    }
}

/// Appends `s` without its parentheses.
fn push_stripped(out: &mut Vec<char>, s: &String)
    ensures
        final(out)@ == old(out)@ + strip_parens(s@),
{
    let cs = crate::text::str_to_chars(s.as_str());
    let ghost start = out@;
    let mut i: usize = 0;
    while i < cs.len()
        invariant
            i <= cs@.len(),
            out@ == start + strip_parens(cs@.subrange(0, i as int)),
        decreases cs@.len() - i,
    {
        let c = cs[i];
        proof {
            let sub = cs@.subrange(0, i + 1);
            assert(sub.drop_last() =~= cs@.subrange(0, i as int));
            assert(sub.last() == c);
        }
        if c != '(' && c != ')' {
            out.push(c);
        }
        i += 1;
        assert(out@ =~= start + strip_parens(cs@.subrange(0, i as int)));
    }
    assert(cs@.subrange(0, cs@.len() as int) =~= cs@);
}

impl Problem {
    /// Renames each label by its generators: the names of its generating old
    /// labels, without parentheses, separated by commas, in angle brackets.
    pub fn rename_by_generators(&mut self) -> (r: Result<(), &'static str>)
        requires
            old(self).mapping_label_oldlabels is Some,
            old(self).mapping_oldlabel_text is Some,
            forall|i: int, j: int| 0 <= i < old(self).mapping_label_oldlabels->Some_0@.len()
                && 0 <= j < old(self).mapping_label_oldlabels->Some_0@[i].1@.len()
                ==> named_labels(label_texts_view(old(self).mapping_oldlabel_text->Some_0@)).contains(
                    #[trigger] old(self).mapping_label_oldlabels->Some_0@[i].1@[j]),
        ensures
            exists|gs: Seq<LabelSetV>| {
                let m = crate::problem::names_map(old(self).mapping_oldlabel_text->Some_0@);
                let res = rename_result(label_texts_view(old(self).mapping_label_text@), generator_names(m, gs));
                &&& #[trigger] generators_list(opt_pairs_view(old(self).diagram_indirect_old), sets_view(old(self).mapping_label_oldlabels->Some_0@), gs)
                &&& (r is Ok <==> res is Ok)
                &&& (r is Err ==> r->Err_0@ == res->Err_0)
                &&& (r is Ok ==> label_texts_view(final(self).mapping_label_text@) == res->Ok_0)
            },
            *final(self) == (Problem { mapping_label_text: final(self).mapping_label_text, ..*old(self) }),
            r is Err ==> *final(self) == *old(self),
    {
        let gens = self.mapping_label_generators();
        let ghost gv = sets_view(gens@);
        let ghost ov = sets_view(self.mapping_label_oldlabels->Some_0@);
        let texts = self.mapping_oldlabel_text.as_ref().unwrap();
        let ghost tv = texts@;
        let mut m: HashMap<Label, String> = HashMap::new();
        let mut i: usize = 0;
        while i < texts.len()
            invariant
                i <= texts@.len(),
                m@ == crate::problem::names_map(texts@.subrange(0, i as int)),
            decreases texts@.len() - i,
        {
            let s = texts[i].1.clone();
            m.insert(texts[i].0, s);
            proof {
                let sub = texts@.subrange(0, i + 1);
                assert(sub.drop_last() =~= texts@.subrange(0, i as int));
            }
            i += 1;
        }
        assert(texts@.subrange(0, texts@.len() as int) =~= texts@);
        proof {
            let gsq = choose|gsq: Seq<LabelSetV>| {
                &&& gsq.len() == ov.len()
                &&& forall|i: int| 0 <= i < ov.len() ==> (#[trigger] gsq[i]).0 == ov[i].0
                    && generators_ok(opt_pairs_view(self.diagram_indirect_old), ov.map_values(|p: LabelSetV| p.1), ov[i].1, gsq[i].1)
                &&& #[trigger] gv.to_multiset() == gsq.to_multiset()
            };
            assert forall|q: int, j: int| 0 <= q < gv.len() && 0 <= j < gv[q].1.len() implies m@.contains_key(#[trigger] gv[q].1[j]) by {
                broadcast use vstd::multiset::group_multiset_axioms;
                assert(gv.to_multiset().count(gv[q]) > 0);
                assert(gsq.to_multiset().count(gv[q]) > 0);
                assert(gsq.contains(gv[q]));
                let w = choose|w: int| 0 <= w < gsq.len() && gsq[w] == gv[q];
                lemma_generators_ok_from(opt_pairs_view(self.diagram_indirect_old), ov.map_values(|p: LabelSetV| p.1), ov[w].1, gsq[w].1);
                let x = gv[q].1[j];
                assert(ov[w].1.contains(x));
                let y = choose|y: int| 0 <= y < ov[w].1.len() && ov[w].1[y] == x;
                assert(self.mapping_label_oldlabels->Some_0@[w].1@[y] == x);
                assert(named_labels(label_texts_view(tv)).contains(x));
                let z = choose|z: int| 0 <= z < label_texts_view(tv).len() && (#[trigger] label_texts_view(tv)[z]).0 == x;
                assert(tv[z].0 == x);
                lemma_names_map_has(tv, x);
            }
        }
        let mut renaming: Vec<(Label, String)> = Vec::new();
        let mut k: usize = 0;
        while k < gens.len()
            invariant
                k <= gens@.len(),
                gv == sets_view(gens@),
                m@ == crate::problem::names_map(tv),
                forall|q: int, j: int| 0 <= q < gv.len() && 0 <= j < gv[q].1.len() ==> m@.contains_key(#[trigger] gv[q].1[j]),
                label_texts_view(renaming@) == generator_names(m@, gv.subrange(0, k as int)),
            decreases gens@.len() - k,
        {
            let g = &gens[k].1;
            assert(gv[k as int].1 == g@);
            let mut out: Vec<char> = Vec::new();
            out.push('<');
            let mut j: usize = 0;
            while j < g.len()
                invariant
                    j <= g@.len(),
                    k < gv.len(),
                    gv[k as int].1 == g@,
                    m@ == crate::problem::names_map(tv),
                    forall|q: int, j: int| 0 <= q < gv.len() && 0 <= j < gv[q].1.len() ==> m@.contains_key(#[trigger] gv[q].1[j]),
                    out@ == seq!['<'] + joined_names(m@, g@.subrange(0, j as int)),
                decreases g@.len() - j,
            {
                if j > 0 {
                    out.push(',');
                }
                assert(m@.contains_key(gv[k as int].1[j as int]));
                let name = m.get(&g[j]).unwrap();
                push_stripped(&mut out, name);
                proof {
                    let sub = g@.subrange(0, j + 1);
                    assert(sub.drop_last() =~= g@.subrange(0, j as int));
                    assert(sub.last() == g@[j as int]);
                    if j == 0 {
                        assert(out@ =~= seq!['<'] + joined_names(m@, sub));
                    } else {
                        assert(out@ =~= seq!['<'] + joined_names(m@, sub));
                    }
                }
                j += 1;
            }
            out.push('>');
            assert(g@.subrange(0, g@.len() as int) =~= g@);
            let text = string_from_chars(&out);
            assert(text@ == angle_name(m@, g@));
            let ghost before = renaming@;
            renaming.push((gens[k].0, text));
            proof {
                assert(label_texts_view(renaming@) =~= label_texts_view(before).push((gv[k as int].0, angle_name(m@, gv[k as int].1))));
                assert(gv.subrange(0, k + 1) =~= gv.subrange(0, k as int).push(gv[k as int]));
                assert(label_texts_view(renaming@) =~= generator_names(m@, gv.subrange(0, k + 1)));
            }
            k += 1;
        }
        assert(gv.subrange(0, gv.len() as int) =~= gv);
        let r = self.rename(&renaming);
        assert(generators_list(opt_pairs_view(old(self).diagram_indirect_old), sets_view(old(self).mapping_label_oldlabels->Some_0@), gv));
        r
    }
}

} // verus!
