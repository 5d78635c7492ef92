use vstd::prelude::*;
use std::collections::HashMap;

use crate::directed::{chars_equal, chars_less, chars_lt, lemma_chars_lt_total, lemma_chars_lt_transitive};
use crate::group::Label;
use crate::problem::{label_sets_view, label_texts_view, names_map, Problem};
use crate::speedup::{label_names, names_of};
use crate::text::{decimal, decimal_string, push_char, push_str, str_to_chars};

verus! {

/// `a` comes before `b`: by label, then by name.
pub open spec fn named_lt(a: (Label, Seq<char>), b: (Label, Seq<char>)) -> bool {
    a.0 < b.0 || (a.0 == b.0 && chars_lt(a.1, b.1))
}

/// The named labels are in increasing order.
pub open spec fn named_sorted(s: Seq<(Label, Seq<char>)>) -> bool {
    forall|i: int, j: int| 0 <= i < j < s.len() ==> named_lt(#[trigger] s[i], #[trigger] s[j])
}

/// The name with its parentheses turned into brackets.
pub open spec fn bracketed(t: Seq<char>) -> Seq<char> {
    t.map_values(|c: char| if c == '(' { '[' } else if c == ')' { ']' } else { c })
}

/// The names of the labels that stand for an old label of name `t`: the
/// name itself for a single label, else the name in brackets followed by
/// `_` and the position counted from one, in parentheses.
pub open spec fn copy_names_of(labels: Seq<Label>, t: Seq<char>) -> Seq<(Label, Seq<char>)> {
    if labels.len() == 1 {
        seq![(labels[0], t)]
    } else {
        Seq::new(labels.len(), |i: int| (labels[i], seq!['('] + bracketed(t) + seq!['_'] + decimal((i + 1) as nat) + seq![')']))
    }
}

/// The names of the labels that stand for the old labels of `v`, old label
/// after old label, each old label named by `m`.
pub open spec fn renamed(v: Seq<(Label, Seq<Label>)>, m: Map<Label, String>) -> Seq<(Label, Seq<char>)>
    decreases v.len(),
{
    if v.len() == 0 {
        Seq::empty()
    } else {
        renamed(v.drop_last(), m) + copy_names_of(v.last().1, m[v.last().0]@)
    }
}

proof fn lemma_named_lt_transitive(a: (Label, Seq<char>), b: (Label, Seq<char>), c: (Label, Seq<char>))
    requires
        named_lt(a, b),
        named_lt(b, c),
    ensures
        named_lt(a, c),
{
    if a.0 == b.0 && b.0 == c.0 {
        lemma_chars_lt_transitive(a.1, b.1, c.1);
    }
}

proof fn lemma_named_lt_total(a: (Label, Seq<char>), b: (Label, Seq<char>))
    ensures
        a == b || named_lt(a, b) || named_lt(b, a),
{
    lemma_chars_lt_total(a.1, b.1);
}

/// The name with its parentheses turned into brackets.
fn bracket(t: &str) -> (r: String)
    ensures
        r@ == bracketed(t@),
{
    let cs = str_to_chars(t);
    let mut r = String::new();
    let mut i: usize = 0;
    while i < cs.len()
        invariant
            i <= cs@.len(),
            cs@ == t@,
            r@ == bracketed(t@).subrange(0, i as int),
        decreases cs@.len() - i,
    {
        let c = cs[i];
        let d = if c == '(' {
            '['
        } else if c == ')' {
            ']'
        } else {
            c
        };
        push_char(&mut r, d);
        i += 1;
        assert(r@ =~= bracketed(t@).subrange(0, i as int));
    }
    assert(bracketed(t@).subrange(0, i as int) =~= bracketed(t@));
    r
}

/// The view of a named label.
pub open spec fn named_view(x: (Label, String)) -> (Label, Seq<char>) {
    (x.0, x.1@)
}

/// Whether `a` comes before `b`.
fn named_less(a: &(Label, String), b: &(Label, String)) -> (r: bool)
    ensures
        r == named_lt(named_view(*a), named_view(*b)),
{
    if a.0 != b.0 {
        return a.0 < b.0;
    }
    let x = str_to_chars(a.1.as_str());
    let y = str_to_chars(b.1.as_str());
    chars_less(&x, &y)
}

/// Whether `a` and `b` are equal.
fn named_equal(a: &(Label, String), b: &(Label, String)) -> (r: bool)
    ensures
        r == (named_view(*a) == named_view(*b)),
{
    if a.0 != b.0 {
        return false;
    }
    let x = str_to_chars(a.1.as_str());
    let y = str_to_chars(b.1.as_str());
    chars_equal(&x, &y)
}

/// Adds `x` to the increasing named labels `v` unless it is there.
fn insert_named(v: &mut Vec<(Label, String)>, x: (Label, String))
    requires
        named_sorted(label_texts_view(old(v)@)),
    ensures
        named_sorted(label_texts_view(final(v)@)),
        label_texts_view(final(v)@).to_set() == label_texts_view(old(v)@).to_set().insert(named_view(x)),
{
    let ghost s = label_texts_view(v@);
    let ghost xv = named_view(x);
    let mut p: usize = 0;
    while p < v.len() && named_less(&v[p], &x)
        invariant
            p <= v@.len(),
            s == label_texts_view(v@),
            xv == named_view(x),
            forall|j: int| 0 <= j < p ==> named_lt(#[trigger] s[j], xv),
        decreases v@.len() - p,
    {
        assert(s[p as int] == named_view(v@[p as int]));
        p += 1;
    }
    if p < v.len() && named_equal(&v[p], &x) {
        assert(s.to_set().insert(xv) =~= s.to_set()) by {
            assert(s[p as int] == xv);
        }
        return;
    }
    proof {
        if p < s.len() {
            assert(s[p as int] == named_view(v@[p as int]));
            lemma_named_lt_total(s[p as int], xv);
            assert(named_lt(xv, s[p as int]));
        }
    }
    v.insert(p, x);
    let ghost t = label_texts_view(v@);
    proof {
        assert(t =~= s.insert(p as int, xv));
        assert forall|i: int, j: int| 0 <= i < j < t.len() implies named_lt(#[trigger] t[i], #[trigger] t[j]) by {
            if j < p {
            } else if i < p && j == p {
            } else if i < p {
                assert(t[j] == s[j - 1]);
                lemma_named_lt_transitive(t[i], xv, s[p as int]);
                if j - 1 > p {
                    lemma_named_lt_transitive(t[i], s[p as int], s[j - 1]);
                }
            } else if i == p {
                assert(t[j] == s[j - 1]);
                if j - 1 > p {
                    lemma_named_lt_transitive(xv, s[p as int], s[j - 1]);
                }
            } else {
                assert(t[i] == s[i - 1]);
                assert(t[j] == s[j - 1]);
            }
        }
        assert(t.to_set() =~= s.to_set().insert(xv)) by {
            assert forall|y: (Label, Seq<char>)| t.to_set().contains(y) implies s.to_set().insert(xv).contains(y) by {
                let w = choose|w: int| 0 <= w < t.len() && t[w] == y;
                if w < p {
                    assert(s[w] == y);
                } else if w > p {
                    assert(s[w - 1] == y);
                }
            }
            assert forall|y: (Label, Seq<char>)| s.to_set().insert(xv).contains(y) implies t.to_set().contains(y) by {
                if y == xv {
                    assert(t[p as int] == y);
                } else {
                    let w = choose|w: int| 0 <= w < s.len() && s[w] == y;
                    if w < p {
                        assert(t[w] == y);
                    } else {
                        assert(t[w + 1] == y);
                    }
                }
            }
        }
    }
}

/// The names of the labels, in increasing order, each once: for each old
/// label of `v`, named by `m`, the names of the labels that stand for it.
fn renamed_labels(v: &Vec<(Label, Vec<Label>)>, m: &HashMap<Label, String>) -> (r: Vec<(Label, String)>)
    requires
        forall|k: int| 0 <= k < v@.len() ==> m@.contains_key(#[trigger] v@[k].0),
    ensures
        named_sorted(label_texts_view(r@)),
        label_texts_view(r@).to_set() == renamed(label_sets_view(v@), m@).to_set(),
{
    let ghost sv = label_sets_view(v@);
    let mut out: Vec<(Label, String)> = Vec::new();
    let mut k: usize = 0;
    assert(label_texts_view(out@).to_set() =~= renamed(sv.subrange(0, 0), m@).to_set());
    while k < v.len()
        invariant
            k <= v@.len(),
            sv == label_sets_view(v@),
            forall|q: int| 0 <= q < v@.len() ==> m@.contains_key(#[trigger] v@[q].0),
            named_sorted(label_texts_view(out@)),
            label_texts_view(out@).to_set() == renamed(sv.subrange(0, k as int), m@).to_set(),
        decreases v@.len() - k,
    {
        let old = v[k].0;
        let labels = &v[k].1;
        assert(m@.contains_key(v@[k as int].0));
        let t = m.get(&old).unwrap();
        let ghost base = renamed(sv.subrange(0, k as int), m@);
        let ghost cn = copy_names_of(labels@, t@);
        proof {
            let sub = sv.subrange(0, k + 1);
            assert(sub.drop_last() =~= sv.subrange(0, k as int));
            assert(sub.last() == (old, labels@));
            assert(renamed(sub, m@) == base + cn);
        }
        if labels.len() == 1 {
            let ghost before = label_texts_view(out@);
            insert_named(&mut out, (labels[0], t.clone()));
            proof {
                assert(cn =~= seq![(labels@[0], t@)]);
                assert((base + cn).to_set() =~= base.to_set().insert((labels@[0], t@))) by {
                    assert forall|y: (Label, Seq<char>)| (base + cn).to_set().contains(y) implies base.to_set().insert((labels@[0], t@)).contains(y) by {
                        let w = choose|w: int| 0 <= w < (base + cn).len() && (base + cn)[w] == y;
                        if w < base.len() {
                            assert(base[w] == y);
                        }
                    }
                    assert forall|y: (Label, Seq<char>)| base.to_set().insert((labels@[0], t@)).contains(y) implies (base + cn).to_set().contains(y) by {
                        if y == (labels@[0], t@) {
                            assert((base + cn)[base.len() as int] == y);
                        } else {
                            let w = choose|w: int| 0 <= w < base.len() && base[w] == y;
                            assert((base + cn)[w] == y);
                        }
                    }
                }
            }
        } else {
            let b = bracket(t.as_str());
            let mut i: usize = 0;
            while i < labels.len()
                invariant
                    i <= labels@.len(),
                    labels@.len() != 1,
                    b@ == bracketed(t@),
                    cn == copy_names_of(labels@, t@),
                    named_sorted(label_texts_view(out@)),
                    label_texts_view(out@).to_set() == (base + cn.subrange(0, i as int)).to_set(),
                decreases labels@.len() - i,
            {
                let mut name = String::new();
                push_char(&mut name, '(');
                push_str(&mut name, b.as_str());
                push_char(&mut name, '_');
                let n1 = i + 1;
                let d = decimal_string(n1 as u64);
                push_str(&mut name, d.as_str());
                push_char(&mut name, ')');
                let ghost nv = (labels@[i as int], name@);
                proof {
                    assert(name@ =~= seq!['('] + bracketed(t@) + seq!['_'] + decimal((i + 1) as nat) + seq![')']);
                    assert(cn[i as int] == nv);
                }
                let ghost before = label_texts_view(out@);
                insert_named(&mut out, (labels[i], name));
                proof {
                    let now = base + cn.subrange(0, i + 1);
                    let was = base + cn.subrange(0, i as int);
                    assert(now =~= was.push(nv));
                    was.lemma_push_to_set_commute(nv);
                }
                i += 1;
            }
            assert(cn.subrange(0, labels@.len() as int) =~= cn);
        }
        k += 1;
    }
    assert(sv.subrange(0, sv.len() as int) =~= sv);
    out
}

impl Problem {
    /// Names the labels. When the sets that the labels stand for are known,
    /// by one character each when there are at most 62 labels, else by
    /// their numbers in parentheses; otherwise from the names of the old
    /// labels: a label that alone stands for an old label takes its name,
    /// else the name in brackets with `_` and the label's position, in
    /// parentheses; the names are kept in increasing order, each once.
    pub fn assign_chars(&mut self)
        requires
            old(self).mapping_label_oldlabels matches Some(v) ==> (v@.len() <= 62 ==> forall|k: int| 0 <= k < v@.len() ==> #[trigger] v@[k].0 <= 194),
            old(self).mapping_label_oldlabels is None ==> {
                &&& old(self).mapping_oldlabel_labels is Some
                &&& old(self).mapping_oldlabel_text is Some
                &&& forall|k: int| 0 <= k < old(self).mapping_oldlabel_labels->Some_0@.len() ==> names_map(old(self).mapping_oldlabel_text->Some_0@).contains_key(
                    #[trigger] old(self).mapping_oldlabel_labels->Some_0@[k].0,
                )
            },
        ensures
            *final(self) == (Problem { mapping_label_text: final(self).mapping_label_text, ..*old(self) }),
            old(self).mapping_label_oldlabels matches Some(v) ==> label_texts_view(final(self).mapping_label_text@) == names_of(
                v@.map_values(|p: (Label, Vec<Label>)| p.0),
            ),
            old(self).mapping_label_oldlabels is None ==> {
                &&& named_sorted(label_texts_view(final(self).mapping_label_text@))
                &&& label_texts_view(final(self).mapping_label_text@).to_set() == renamed(
                    label_sets_view(old(self).mapping_oldlabel_labels->Some_0@),
                    names_map(old(self).mapping_oldlabel_text->Some_0@),
                ).to_set()
            },
    {
        match &self.mapping_label_oldlabels {
            Some(v) => {
                let ghost firsts = v@.map_values(|p: (Label, Vec<Label>)| p.0);
                let mut ids: Vec<Label> = Vec::new();
                let mut i: usize = 0;
                while i < v.len()
                    invariant
                        i <= v@.len(),
                        firsts == v@.map_values(|p: (Label, Vec<Label>)| p.0),
                        ids@ == firsts.subrange(0, i as int),
                    decreases v@.len() - i,
                {
                    ids.push(v[i].0);
                    i += 1;
                    assert(ids@ =~= firsts.subrange(0, i as int));
                }
                assert(firsts.subrange(0, i as int) =~= firsts);
                proof {
                    if ids@.len() <= 62 {
                        assert forall|k: int| 0 <= k < ids@.len() implies #[trigger] ids@[k] <= 194 by {
                            assert(ids@[k] == v@[k].0);
                        }
                    }
                }
                self.mapping_label_text = label_names(&ids);
            },
            None => {
                let texts = match &self.mapping_oldlabel_text {
                    Some(t) => t,
                    None => {
                        return;
                    },
                };
                let mut m: HashMap<Label, String> = HashMap::new();
                let mut i: usize = 0;
                while i < texts.len()
                    invariant
                        i <= texts@.len(),
                        m@ == names_map(texts@.subrange(0, i as int)),
                    decreases texts@.len() - i,
                {
                    let s = texts[i].1.clone();
                    m.insert(texts[i].0, s);
                    proof {
                        let sub = texts@.subrange(0, i + 1);
                        assert(sub.drop_last() =~= texts@.subrange(0, i as int));
                    }
                    i += 1;
                }
                assert(texts@.subrange(0, texts@.len() as int) =~= texts@);
                let out = match &self.mapping_oldlabel_labels {
                    Some(v) => renamed_labels(v, &m),
                    None => Vec::new(),
                };
                self.mapping_label_text = out;
            },
        }
    }
}

} // verus!
