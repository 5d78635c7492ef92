use vstd::prelude::*;

use std::collections::HashMap;

use crate::constraint::{add_line_spec, constraint_includes, discard_spec, included, not_included_by, Constraint};
use crate::choices::{add_unique, distinct_sorted, sets_of, vecs_view};
use crate::constraint::groups_spec;
use crate::edit::{edited_lines, sorted_of, EditOp};
use crate::group::{copy_labels, sorted_unique, strictly_sorted, Group, GroupType, Label};
use crate::line::{line_text, normalized_from, Degree, Line, PartV};
use crate::maximize::{joins_covered, no_joinable_pair, no_zero, normal_lines_covered};
use crate::part::{labels_text, names_all, push_labels_text};
use crate::sorting::{sort_labels, sorted_labels};
use crate::speedup::{copy_names, label_names, lemma_groups_sorted, names_of, numbered_sets, rev_sorted, sort_by_last_labels};
use crate::text::{push_char, push_str};
use crate::part::{names_view, part_error_text, part_scan, Part};
use crate::problem::{copy_label_texts, join_lines, label_sets_view, label_texts_view, names_all_lines, names_map, numbered, LabelSet};
use crate::reading::{constraint_read, split_text_lines, text_lines};
use crate::text::{str_to_chars, string_from_chars};

verus! {

/// A problem on directed edges: for each label of the predecessor, the
/// configurations allowed on the successors.
#[derive(Clone, Debug, Eq, PartialEq)]
pub struct DirectedProblem {
    pub constraints: Vec<(Group, Constraint)>,
    pub mapping_label_text: Vec<(Label, String)>,
    pub mapping_label_oldlabels: Option<Vec<LabelSet>>,
    pub mapping_oldlabel_labels: Option<Vec<LabelSet>>,
    pub mapping_oldlabel_text: Option<Vec<(Label, String)>>,
}

/// ` : ` starts at position `i` of `t`.
pub open spec fn sep_at(t: Seq<char>, i: int) -> bool {
    0 <= i && i + 3 <= t.len() && t[i] == ' ' && t[i + 1] == ':' && t[i + 2] == ' '
}

/// The first position from `start` on where ` : ` starts, or the length of
/// `t` when there is none.
pub open spec fn next_sep(t: Seq<char>, start: nat) -> nat
    decreases t.len() - start,
{
    if start + 3 > t.len() {
        t.len()
    } else if sep_at(t, start as int) {
        start
    } else {
        next_sep(t, start + 1)
    }
}

/// The line holds ` : `.
pub open spec fn has_sep(t: Seq<char>) -> bool {
    next_sep(t, 0) < t.len()
}

/// The text of a line before its first ` : `: the predecessor.
pub open spec fn key_of(t: Seq<char>) -> Seq<char> {
    t.subrange(0, next_sep(t, 0) as int)
}

/// The text of a line after its first ` : `, up to the next one.
pub open spec fn body_of(t: Seq<char>) -> Seq<char> {
    let f = next_sep(t, 0);
    t.subrange((f + 3) as int, next_sep(t, f + 3) as int)
}

/// The predecessor and the configuration of each line.
pub open spec fn line_pairs(ls: Seq<Seq<char>>) -> Seq<(Seq<char>, Seq<char>)> {
    ls.map_values(|t: Seq<char>| (key_of(t), body_of(t)))
}

/// The configurations given for predecessor `k`, in order.
pub open spec fn bodies_with(ps: Seq<(Seq<char>, Seq<char>)>, k: Seq<char>) -> Seq<Seq<char>> {
    ps.filter(|p: (Seq<char>, Seq<char>)| p.0 == k).map_values(|p: (Seq<char>, Seq<char>)| p.1)
}

/// `a` comes before `b` in the order of their characters.
pub open spec fn chars_lt(a: Seq<char>, b: Seq<char>) -> bool
    decreases a.len(),
{
    if a.len() == 0 {
        b.len() > 0
    } else if b.len() == 0 {
        false
    } else if a[0] != b[0] {
        a[0] < b[0]
    } else {
        chars_lt(a.drop_first(), b.drop_first())
    }
}

/// The texts are in increasing order.
pub open spec fn texts_sorted(s: Seq<Seq<char>>) -> bool {
    forall|i: int, j: int| 0 <= i < j < s.len() ==> chars_lt(#[trigger] s[i], #[trigger] s[j])
}

/// `keys` are the predecessors of the lines, each once, in increasing order.
pub open spec fn keys_ok(keys: Seq<Seq<char>>, ps: Seq<(Seq<char>, Seq<char>)>) -> bool {
    &&& texts_sorted(keys)
    &&& keys.to_set() == ps.map_values(|p: (Seq<char>, Seq<char>)| p.0).to_set()
}

pub proof fn lemma_chars_lt_irreflexive(a: Seq<char>)
    ensures
        !chars_lt(a, a),
    decreases a.len(),
{
    if a.len() > 0 {
        lemma_chars_lt_irreflexive(a.drop_first());
    }
}

pub proof fn lemma_chars_lt_transitive(a: Seq<char>, b: Seq<char>, c: Seq<char>)
    requires
        chars_lt(a, b),
        chars_lt(b, c),
    ensures
        chars_lt(a, c),
    decreases a.len(),
{
    if a.len() > 0 && b.len() > 0 && c.len() > 0 && a[0] == b[0] && b[0] == c[0] {
        lemma_chars_lt_transitive(a.drop_first(), b.drop_first(), c.drop_first());
    }
}

pub proof fn lemma_chars_lt_total(a: Seq<char>, b: Seq<char>)
    ensures
        a == b || chars_lt(a, b) || chars_lt(b, a),
    decreases a.len(),
{
    if a.len() == 0 && b.len() == 0 {
        assert(a =~= b);
    } else if a.len() > 0 && b.len() > 0 && a[0] == b[0] {
        lemma_chars_lt_total(a.drop_first(), b.drop_first());
        if a.drop_first() == b.drop_first() {
            assert(a =~= seq![a[0]] + a.drop_first());
            assert(b =~= seq![b[0]] + b.drop_first());
        }
    }
}

/// Where ` : ` starts, from `start` on.
fn find_sep(t: &Vec<char>, start: usize) -> (r: usize)
    requires
        start <= t@.len(),
    ensures
        r == next_sep(t@, start as nat),
        start <= r <= t@.len(),
{
    let mut i = start;
    while t.len() >= 3 && i <= t.len() - 3
        invariant
            start <= i <= t@.len(),
            next_sep(t@, start as nat) == next_sep(t@, i as nat),
        decreases t@.len() - i,
    {
        if t[i] == ' ' && t[i + 1] == ':' && t[i + 2] == ' ' {
            return i;
        }
        i += 1;
    }
    t.len()
}

/// A part of `t`.
fn slice_chars(t: &Vec<char>, from: usize, to: usize) -> (r: Vec<char>)
    requires
        from <= to <= t@.len(),
    ensures
        r@ == t@.subrange(from as int, to as int),
{
    let mut r: Vec<char> = Vec::new();
    let mut i = from;
    while i < to
        invariant
            from <= i <= to <= t@.len(),
            r@ == t@.subrange(from as int, i as int),
        decreases to - i,
    {
        r.push(t[i]);
        i += 1;
        assert(r@ =~= t@.subrange(from as int, i as int));
    }
    r
}

/// Whether `a` comes before `b`.
pub fn chars_less(a: &Vec<char>, b: &Vec<char>) -> (r: bool)
    ensures
        r == chars_lt(a@, b@),
{
    let mut i: usize = 0;
    assert(a@.skip(0) =~= a@);
    assert(b@.skip(0) =~= b@);
    while i < a.len() && i < b.len() && a[i] == b[i]
        invariant
            i <= a@.len(),
            i <= b@.len(),
            chars_lt(a@, b@) == chars_lt(a@.skip(i as int), b@.skip(i as int)),
        decreases a@.len() - i,
    {
        proof {
            assert(a@.skip(i as int).drop_first() =~= a@.skip(i + 1));
            assert(b@.skip(i as int).drop_first() =~= b@.skip(i + 1));
        }
        i += 1;
    }
    if i == a.len() {
        i < b.len()
    } else if i == b.len() {
        false
    } else {
        a[i] < b[i]
    }
}

/// Whether the two texts are equal.
pub fn chars_equal(a: &Vec<char>, b: &Vec<char>) -> (r: bool)
    ensures
        r == (a@ == b@),
{
    if a.len() != b.len() {
        return false;
    }
    let mut i: usize = 0;
    while i < a.len()
        invariant
            a@.len() == b@.len(),
            i <= a@.len(),
            forall|j: int| 0 <= j < i ==> a@[j] == b@[j],
        decreases a@.len() - i,
    {
        if a[i] != b[i] {
            return false;
        }
        i += 1;
    }
    assert(a@ =~= b@);
    true
}

/// The views of some texts.
pub open spec fn texts_view(v: Seq<Vec<char>>) -> Seq<Seq<char>> {
    v.map_values(|t: Vec<char>| t@)
}

/// Adds `k` to the increasing texts `keys` unless it is there.
fn insert_key(keys: &mut Vec<Vec<char>>, k: Vec<char>)
    requires
        texts_sorted(texts_view(old(keys)@)),
    ensures
        texts_sorted(texts_view(final(keys)@)),
        texts_view(final(keys)@).to_set() == texts_view(old(keys)@).to_set().insert(k@),
{
    let ghost s = texts_view(keys@);
    let mut p: usize = 0;
    while p < keys.len() && chars_less(&keys[p], &k)
        invariant
            p <= keys@.len(),
            s == texts_view(keys@),
            forall|j: int| 0 <= j < p ==> chars_lt(#[trigger] s[j], k@),
        decreases keys@.len() - p,
    {
        p += 1;
    }
    if p < keys.len() && chars_equal(&keys[p], &k) {
        assert(s.to_set().insert(k@) =~= s.to_set()) by {
            assert(s[p as int] == k@);
        }
        return;
    }
    proof {
        if p < s.len() {
            lemma_chars_lt_total(s[p as int], k@);
            assert(chars_lt(k@, s[p as int]));
        }
    }
    keys.insert(p, k);
    let ghost t = texts_view(keys@);
    proof {
        assert(t =~= s.insert(p as int, k@));
        assert forall|i: int, j: int| 0 <= i < j < t.len() implies chars_lt(#[trigger] t[i], #[trigger] t[j]) by {
            if j < p {
            } else if i < p && j == p {
            } else if i < p {
                assert(t[j] == s[j - 1]);
                lemma_chars_lt_transitive(t[i], k@, s[p as int]);
                if j - 1 > p {
                    lemma_chars_lt_transitive(t[i], s[p as int], s[j - 1]);
                }
            } else if i == p {
                assert(t[j] == s[j - 1]);
                if j - 1 > p {
                    lemma_chars_lt_transitive(k@, s[p as int], s[j - 1]);
                }
            } else {
                assert(t[i] == s[i - 1]);
                assert(t[j] == s[j - 1]);
            }
        }
        assert(t.to_set() =~= s.to_set().insert(k@)) by {
            assert forall|x: Seq<char>| t.to_set().contains(x) implies s.to_set().insert(k@).contains(x) by {
                let w = choose|w: int| 0 <= w < t.len() && t[w] == x;
                if w < p {
                    assert(s[w] == x);
                } else if w > p {
                    assert(s[w - 1] == x);
                }
            }
            assert forall|x: Seq<char>| s.to_set().insert(k@).contains(x) implies t.to_set().contains(x) by {
                if x == k@ {
                    assert(t[p as int] == x);
                } else {
                    let w = choose|w: int| 0 <= w < s.len() && s[w] == x;
                    if w < p {
                        assert(t[w] == x);
                    } else {
                        assert(t[w + 1] == x);
                    }
                }
            }
        }
    }
}

proof fn lemma_next_sep(t: Seq<char>, s: nat)
    ensures
        s <= t.len() ==> s <= next_sep(t, s),
        next_sep(t, s) <= t.len(),
        next_sep(t, s) < t.len() ==> sep_at(t, next_sep(t, s) as int),
    decreases t.len() - s,
{
    if s + 3 <= t.len() && !sep_at(t, s as int) {
        lemma_next_sep(t, s + 1);
    }
}

/// The predecessor and the configuration of a line that holds ` : `.
fn split_line(t: &Vec<char>) -> (r: (Vec<char>, Vec<char>))
    requires
        has_sep(t@),
    ensures
        r.0@ == key_of(t@),
        r.1@ == body_of(t@),
{
    proof {
        lemma_next_sep(t@, 0);
    }
    let f = find_sep(t, 0);
    assert(sep_at(t@, f as int));
    let n = t.len();
    assert(f + 3 <= n);
    let f3 = f + 3;
    proof {
        lemma_next_sep(t@, f3 as nat);
    }
    let g = find_sep(t, f3);
    (slice_chars(t, 0, f), slice_chars(t, f3, g))
}

/// The views of the predecessors and configurations.
pub open spec fn pairs_view(v: Seq<(Vec<char>, Vec<char>)>) -> Seq<(Seq<char>, Seq<char>)> {
    v.map_values(|p: (Vec<char>, Vec<char>)| (p.0@, p.1@))
}

/// The configurations given for predecessor `k`, in order.
fn bodies_of(pairs: &Vec<(Vec<char>, Vec<char>)>, k: &Vec<char>) -> (r: Vec<Vec<char>>)
    ensures
        texts_view(r@) == bodies_with(pairs_view(pairs@), k@),
{
    let ghost pv = pairs_view(pairs@);
    let mut r: Vec<Vec<char>> = Vec::new();
    let mut q: usize = 0;
    assert(pv.subrange(0, 0).filter(|p: (Seq<char>, Seq<char>)| p.0 == k@) =~= Seq::empty());
    while q < pairs.len()
        invariant
            q <= pairs@.len(),
            pv == pairs_view(pairs@),
            texts_view(r@) == bodies_with(pv.subrange(0, q as int), k@),
        decreases pairs@.len() - q,
    {
        let ghost pred = |p: (Seq<char>, Seq<char>)| p.0 == k@;
        proof {
            assert(pv.subrange(0, q + 1) =~= pv.subrange(0, q as int).push(pv[q as int]));
            pv.subrange(0, q as int).lemma_filter_push(pv[q as int], pred);
        }
        if chars_equal(&pairs[q].0, k) {
            let b = slice_chars(&pairs[q].1, 0, pairs[q].1.len());
            let ghost before = r@;
            r.push(b);
            proof {
                assert(pairs[q as int].1@.subrange(0, pairs[q as int].1@.len() as int) =~= pairs[q as int].1@);
                assert(texts_view(r@) =~= texts_view(before).push(b@));
                assert(pv.subrange(0, q + 1).filter(pred) == pv.subrange(0, q as int).filter(pred).push(pv[q as int]));
                assert(pv.subrange(0, q + 1).filter(pred).map_values(|p: (Seq<char>, Seq<char>)| p.1)
                    =~= pv.subrange(0, q as int).filter(pred).map_values(|p: (Seq<char>, Seq<char>)| p.1).push(b@));
            }
        }
        q += 1;
    }
    assert(pv.subrange(0, pairs@.len() as int) =~= pv);
    r
}

/// The lines joined by line ends.
fn join_texts(ls: &Vec<Vec<char>>) -> (r: Vec<char>)
    ensures
        r@ == join_lines(texts_view(ls@)),
{
    let ghost v = texts_view(ls@);
    let mut r: Vec<char> = Vec::new();
    let mut i: usize = 0;
    assert(v.subrange(0, 0) =~= Seq::<Seq<char>>::empty());
    while i < ls.len()
        invariant
            i <= ls@.len(),
            v == texts_view(ls@),
            r@ == join_lines(v.subrange(0, i as int)),
        decreases ls@.len() - i,
    {
        let ghost before = r@;
        if i > 0 {
            r.push('\n');
        }
        let t = &ls[i];
        let mut j: usize = 0;
        let ghost mid = r@;
        while j < t.len()
            invariant
                j <= t@.len(),
                r@ == mid + t@.subrange(0, j as int),
            decreases t@.len() - j,
        {
            r.push(t[j]);
            j += 1;
            assert(r@ =~= mid + t@.subrange(0, j as int));
        }
        proof {
            let w = v.subrange(0, i + 1);
            assert(w.drop_last() =~= v.subrange(0, i as int));
            assert(w.last() == t@);
            assert(t@.subrange(0, t@.len() as int) =~= t@);
            if i == 0 {
                assert(r@ =~= t@);
            } else {
                assert(r@ =~= before + seq!['\n'] + t@);
            }
        }
        i += 1;
    }
    assert(v.subrange(0, ls@.len() as int) =~= v);
    r
}

/// Reading one predecessor, `key`, with its configurations, `text`, from
/// the names `names`: `r` is what comes out and `names_out` the names after.
pub open spec fn entry_read(
    key: Seq<char>,
    text: Seq<char>,
    names: Seq<Seq<char>>,
    r: Result<(Group, Constraint), &'static str>,
    names_out: Seq<Seq<char>>,
) -> bool {
    if names.len() + key.len() >= u32::MAX {
        r is Err && r->Err_0@ == "Too many labels"@
    } else {
        match part_scan(key, names) {
            Err(e) => r is Err && r->Err_0@ == part_error_text(e),
            Ok(st) => if st.gtype != GroupType::Many(1) {
                r is Err && r->Err_0@ == "Only one-element groups are supported as predecessors"@
            } else if st.names.len() + text.len() >= u32::MAX {
                r is Err && r->Err_0@ == "Too many labels"@
            } else {
                exists|cr: Result<Constraint, &'static str>| #[trigger] constraint_read(text, st.names, cr, names_out) && match cr {
                    Err(m) => r is Err && r->Err_0@ == m@,
                    Ok(c) => r matches Ok(v) && v.0.wf() && v.0.labels() == st.group.to_set() && v.1 == c,
                }
            },
        }
    }
}

/// Reading the text `t`: the predecessors `keys` are read in order, the
/// `k`-th from the names `names[k]`, giving `rs[k]`; reading stops at the
/// first error, which is the result, else the result holds what was read.
pub open spec fn directed_read(
    t: Seq<char>,
    keys: Seq<Seq<char>>,
    names: Seq<Seq<Seq<char>>>,
    rs: Seq<Result<(Group, Constraint), &'static str>>,
    r: Result<DirectedProblem, &'static str>,
) -> bool {
    let ps = line_pairs(text_lines(t));
    &&& keys_ok(keys, ps)
    &&& names.len() == rs.len() + 1
    &&& names[0] == Seq::<Seq<char>>::empty()
    &&& rs.len() <= keys.len()
    &&& forall|k: int| 0 <= k < rs.len() ==> #[trigger] entry_read(keys[k], join_lines(bodies_with(ps, keys[k])), names[k], rs[k], names[k + 1])
    &&& forall|k: int| 0 <= k < rs.len() - 1 ==> #[trigger] rs[k] is Ok
    &&& match r {
        Ok(p) => {
            &&& rs.len() == keys.len()
            &&& p.constraints@.len() == rs.len()
            &&& forall|k: int| 0 <= k < rs.len() ==> #[trigger] rs[k] == Ok::<(Group, Constraint), &'static str>(p.constraints@[k])
            &&& label_texts_view(p.mapping_label_text@) == numbered(names.last())
            &&& p.mapping_label_oldlabels is None
            &&& p.mapping_oldlabel_labels is None
            &&& p.mapping_oldlabel_text is None
        },
        Err(m) => rs.len() > 0 && rs.last() == Err::<(Group, Constraint), &'static str>(m),
    }
}

/// Every line of the text holds ` : `.
pub open spec fn all_lines_have_sep(t: Seq<char>) -> bool {
    forall|k: int| 0 <= k < text_lines(t).len() ==> has_sep(#[trigger] text_lines(t)[k])
}

/// Label `i` with the `i`-th name, for every name.
fn numbered_names(mapping: &Vec<String>) -> (r: Vec<(Label, String)>)
    requires
        mapping@.len() < u32::MAX,
    ensures
        label_texts_view(r@) == numbered(names_view(mapping@)),
{
    let mut texts: Vec<(Label, String)> = Vec::new();
    let mut i: usize = 0;
    let ghost names = names_view(mapping@);
    while i < mapping.len()
        invariant
            names == names_view(mapping@),
            i <= mapping@.len(),
            mapping@.len() < u32::MAX,
            label_texts_view(texts@) == numbered(names).subrange(0, i as int),
        decreases mapping@.len() - i,
    {
        let ghost before = texts@;
        let s = mapping[i].clone();
        texts.push((i as Label, s));
        i += 1;
        assert(label_texts_view(texts@) =~= label_texts_view(before).push(((i - 1) as Label, names[i - 1])));
        assert(label_texts_view(texts@) =~= numbered(names).subrange(0, i as int));
    }
    assert(numbered(names).subrange(0, names.len() as int) =~= numbered(names));
    texts
}

impl DirectedProblem {
    /// Reads a problem from lines `P : C`, where `P` is one label of the
    /// predecessor and `C` one configuration allowed on the successors when
    /// the predecessor has that label. The predecessors are read in the
    /// order of their texts, each with all its configurations.
    pub fn from_string(s: &str) -> (r: Result<DirectedProblem, &'static str>)
        requires
            all_lines_have_sep(s@),
        ensures
            exists|keys: Seq<Seq<char>>, names: Seq<Seq<Seq<char>>>, rs: Seq<Result<(Group, Constraint), &'static str>>|
                #[trigger] directed_read(s@, keys, names, rs, r),
    {
        let cs = str_to_chars(s);
        let tls = split_text_lines(&cs);
        let ghost tv = texts_view(tls@);
        assert(tv == text_lines(s@));
        let ghost ps = line_pairs(tv);
        let mut keys: Vec<Vec<char>> = Vec::new();
        let mut pairs: Vec<(Vec<char>, Vec<char>)> = Vec::new();
        let mut i: usize = 0;
        assert(pairs_view(pairs@) =~= line_pairs(tv.subrange(0, 0)));
        assert(texts_view(keys@).to_set() =~= pairs_view(pairs@).map_values(|p: (Seq<char>, Seq<char>)| p.0).to_set());
        while i < tls.len()
            invariant
                i <= tls@.len(),
                tv == texts_view(tls@),
                tv == text_lines(s@),
                all_lines_have_sep(s@),
                pairs_view(pairs@) == line_pairs(tv.subrange(0, i as int)),
                texts_sorted(texts_view(keys@)),
                texts_view(keys@).to_set() == pairs_view(pairs@).map_values(|p: (Seq<char>, Seq<char>)| p.0).to_set(),
            decreases tls@.len() - i,
        {
            assert(tls@[i as int]@ == tv[i as int]);
            assert(has_sep(text_lines(s@)[i as int]));
            let (k, b) = split_line(&tls[i]);
            let kc = slice_chars(&k, 0, k.len());
            assert(k@.subrange(0, k@.len() as int) =~= k@);
            let ghost pk = pairs_view(pairs@).map_values(|p: (Seq<char>, Seq<char>)| p.0);
            let ghost before = pairs@;
            insert_key(&mut keys, kc);
            pairs.push((k, b));
            proof {
                assert(pairs_view(pairs@) =~= pairs_view(before).push((k@, b@)));
                assert(line_pairs(tv.subrange(0, i + 1)) =~= line_pairs(tv.subrange(0, i as int)).push((key_of(tv[i as int]), body_of(tv[i as int]))));
                assert(pairs_view(pairs@).map_values(|p: (Seq<char>, Seq<char>)| p.0) =~= pk.push(k@));
                pk.lemma_push_to_set_commute(k@);
            }
            i += 1;
        }
        assert(tv.subrange(0, tv.len() as int) =~= tv);
        let ghost kv = texts_view(keys@);
        let mut mapping: Vec<String> = Vec::new();
        let mut constraints: Vec<(Group, Constraint)> = Vec::new();
        let ghost mut names: Seq<Seq<Seq<char>>> = seq![names_view(mapping@)];
        let ghost mut rs: Seq<Result<(Group, Constraint), &'static str>> = Seq::empty();
        assert(names_view(mapping@) =~= Seq::<Seq<char>>::empty());
        let mut j: usize = 0;
        while j < keys.len()
            invariant
                j <= keys@.len(),
                kv == texts_view(keys@),
                keys_ok(kv, ps),
                ps == line_pairs(text_lines(s@)),
                pairs_view(pairs@) == ps,
                names.len() == j + 1,
                rs.len() == j,
                names[0] == Seq::<Seq<char>>::empty(),
                names.last() == names_view(mapping@),
                mapping@.len() < u32::MAX,
                constraints@.len() == j,
                forall|q: int| 0 <= q < j ==> #[trigger] entry_read(kv[q], join_lines(bodies_with(ps, kv[q])), names[q], rs[q], names[q + 1]),
                forall|q: int| 0 <= q < j ==> #[trigger] rs[q] == Ok::<(Group, Constraint), &'static str>(constraints@[q]),
            decreases keys@.len() - j,
        {
            let key = &keys[j];
            let bodies = bodies_of(&pairs, key);
            let text = join_texts(&bodies);
            let ghost tx = join_lines(bodies_with(ps, kv[j as int]));
            assert(text@ == tx);
            let ghost n0 = names_view(mapping@);
            if key.len() >= 0xffff_ffffusize - mapping.len() {
                let r: Result<DirectedProblem, &'static str> = Err("Too many labels");
                proof {
                    let rs2 = rs.push(Err::<(Group, Constraint), &'static str>("Too many labels"));
                    let names2 = names.push(n0);
                    assert(entry_read(kv[j as int], tx, names2[j as int], rs2[j as int], names2[j + 1]));
                    assert(directed_read(s@, kv, names2, rs2, r));
                }
                return r;
            }
            let ks = string_from_chars(key);
            let rp = Part::parse(ks.as_str(), &mut mapping);
            let part = match rp {
                Ok(p) => p,
                Err(e) => {
                    let r: Result<DirectedProblem, &'static str> = Err(e);
                    proof {
                        let rs2 = rs.push(Err::<(Group, Constraint), &'static str>(e));
                        let names2 = names.push(names_view(mapping@));
                        assert(entry_read(kv[j as int], tx, names2[j as int], rs2[j as int], names2[j + 1]));
                        assert(directed_read(s@, kv, names2, rs2, r));
                    }
                    return r;
                },
            };
            let one = match part.gtype {
                GroupType::Many(x) => x == 1,
                GroupType::Star => false,
            };
            if !one {
                let r: Result<DirectedProblem, &'static str> = Err("Only one-element groups are supported as predecessors");
                proof {
                    let rs2 = rs.push(Err::<(Group, Constraint), &'static str>("Only one-element groups are supported as predecessors"));
                    let names2 = names.push(names_view(mapping@));
                    assert(entry_read(kv[j as int], tx, names2[j as int], rs2[j as int], names2[j + 1]));
                    assert(directed_read(s@, kv, names2, rs2, r));
                }
                return r;
            }
            if text.len() >= 0xffff_ffffusize - mapping.len() {
                let r: Result<DirectedProblem, &'static str> = Err("Too many labels");
                proof {
                    let rs2 = rs.push(Err::<(Group, Constraint), &'static str>("Too many labels"));
                    let names2 = names.push(names_view(mapping@));
                    assert(entry_read(kv[j as int], tx, names2[j as int], rs2[j as int], names2[j + 1]));
                    assert(directed_read(s@, kv, names2, rs2, r));
                }
                return r;
            }
            let ts = string_from_chars(&text);
            let ghost n1 = names_view(mapping@);
            let rc = Constraint::parse(ts.as_str(), &mut mapping);
            let ghost n2 = names_view(mapping@);
            assert(constraint_read(tx, n1, rc, n2));
            let c = match rc {
                Ok(c) => c,
                Err(e) => {
                    let r: Result<DirectedProblem, &'static str> = Err(e);
                    proof {
                        let rs2 = rs.push(Err::<(Group, Constraint), &'static str>(e));
                        let names2 = names.push(n2);
                        assert(entry_read(kv[j as int], tx, names2[j as int], rs2[j as int], names2[j + 1]));
                        assert(directed_read(s@, kv, names2, rs2, r));
                    }
                    return r;
                },
            };
            let entry = (part.group, c);
            proof {
                names = names.push(n2);
                rs = rs.push(Ok::<(Group, Constraint), &'static str>(entry));
                assert(entry_read(kv[j as int], tx, names[j as int], rs[j as int], names[j + 1]));
            }
            constraints.push(entry);
            j += 1;
        }
        let texts = numbered_names(&mapping);
        let r: Result<DirectedProblem, &'static str> = Ok(DirectedProblem {
            constraints,
            mapping_label_text: texts,
            mapping_label_oldlabels: None,
            mapping_oldlabel_labels: None,
            mapping_oldlabel_text: None,
        });
        assert(directed_read(s@, kv, names, rs, r));
        r
    }
}

/// Every predecessor group is well formed, and every constraint is well
/// formed and of the degree of the first.
pub open spec fn directed_wf(cs: Seq<(Group, Constraint)>) -> bool {
    forall|k: int| 0 <= k < cs.len() ==> (#[trigger] cs[k]).0.wf() && cs[k].1.wf() && cs[k].1.degree == cs[0].1.degree
}

/// The labels that have a name.
pub open spec fn named_labels(v: Seq<(Label, String)>) -> Seq<Label> {
    v.map_values(|p: (Label, String)| p.0)
}


/// The labels of a list of labels with sets.
pub open spec fn named_labels_of_sets(v: Seq<LabelSet>) -> Seq<Label> {
    v.map_values(|p: LabelSet| p.0)
}

/// The labels of all the sets, set after set.
pub open spec fn flat_labels(v: Seq<LabelSet>) -> Seq<Label>
    decreases v.len(),
{
    if v.len() == 0 {
        Seq::empty()
    } else {
        flat_labels(v.drop_last()) + v.last().1@
    }
}

/// One-character names fit the labels: with at most 62 labels, each is at
/// most 194.
pub open spec fn chars_fit(s: Set<Label>) -> bool {
    s.len() <= 62 ==> forall|l: Label| s.contains(l) ==> l <= 194
}

/// The text of a problem: for each predecessor and each of its lines, the
/// names of the predecessor labels, ` : ` and the line, then `\n`.
pub open spec fn directed_text(m: Map<Label, String>, cs: Seq<(Group, Constraint)>) -> Seq<char>
    decreases cs.len(),
{
    if cs.len() == 0 {
        Seq::empty()
    } else {
        directed_text(m, cs.drop_last()) + head_lines_text(m, cs.last().0@, cs.last().1@)
    }
}

/// The lines of a constraint, each after the names of `head` and ` : `.
pub open spec fn head_lines_text(m: Map<Label, String>, head: Seq<Label>, ls: Seq<Seq<crate::line::PartV>>) -> Seq<char>
    decreases ls.len(),
{
    if ls.len() == 0 {
        Seq::empty()
    } else {
        head_lines_text(m, head, ls.drop_last()) + labels_text(m, head) + " : "@ + line_text(m, ls.last()) + seq!['\n']
    }
}

/// `m` names every label of the problem.
pub open spec fn names_all_directed(m: Map<Label, String>, cs: Seq<(Group, Constraint)>) -> bool {
    forall|k: int| 0 <= k < cs.len() ==> names_all(m, (#[trigger] cs[k]).0@) && names_all_lines(m, cs[k].1@)
}

/// The labels of all the sets, set after set.
fn flatten_sets(v: &Vec<LabelSet>) -> (r: Vec<Label>)
    ensures
        r@ == flat_labels(v@),
{
    let mut r: Vec<Label> = Vec::new();
    let mut i: usize = 0;
    while i < v.len()
        invariant
            i <= v@.len(),
            r@ == flat_labels(v@.subrange(0, i as int)),
        decreases v@.len() - i,
    {
        let ls = &v[i].1;
        let ghost before = r@;
        let mut j: usize = 0;
        while j < ls.len()
            invariant
                j <= ls@.len(),
                r@ == before + ls@.subrange(0, j as int),
            decreases ls@.len() - j,
        {
            r.push(ls[j]);
            j += 1;
            assert(r@ =~= before + ls@.subrange(0, j as int));
        }
        proof {
            assert(v@.subrange(0, i + 1).drop_last() =~= v@.subrange(0, i as int));
            assert(ls@.subrange(0, ls@.len() as int) =~= ls@);
        }
        i += 1;
    }
    assert(v@.subrange(0, v@.len() as int) =~= v@);
    r
}

impl DirectedProblem {
    pub open spec fn wf(&self) -> bool {
        directed_wf(self.constraints@)
    }

    /// The labels that have a name, in increasing order.
    pub fn labels(&self) -> (r: Vec<Label>)
        ensures
            sorted_labels(r@),
            r@.to_multiset() == named_labels(self.mapping_label_text@).to_multiset(),
    {
        let mut v: Vec<Label> = Vec::new();
        let mut i: usize = 0;
        while i < self.mapping_label_text.len()
            invariant
                i <= self.mapping_label_text@.len(),
                v@ == named_labels(self.mapping_label_text@).subrange(0, i as int),
            decreases self.mapping_label_text@.len() - i,
        {
            v.push(self.mapping_label_text[i].0);
            i += 1;
            assert(v@ =~= named_labels(self.mapping_label_text@).subrange(0, i as int));
        }
        assert(named_labels(self.mapping_label_text@).subrange(0, i as int) =~= named_labels(self.mapping_label_text@));
        sort_labels(&v)
    }

    /// Names the labels: those of `mapping_label_oldlabels` when it is
    /// given, else every label that some old label stands for, each once in
    /// increasing order; by one character each when there are at most 62 of
    /// them, else by their numbers in parentheses.
    pub fn assign_chars(&mut self)
        requires
            old(self).mapping_label_oldlabels is Some || old(self).mapping_oldlabel_labels is Some,
            old(self).mapping_label_oldlabels matches Some(v) ==> (v@.len() <= 62 ==> forall|k: int| 0 <= k < v@.len() ==> #[trigger] v@[k].0 <= 194),
            old(self).mapping_label_oldlabels is None ==> chars_fit(flat_labels(old(self).mapping_oldlabel_labels->Some_0@).to_set()),
        ensures
            final(self).constraints == old(self).constraints,
            final(self).mapping_label_oldlabels == old(self).mapping_label_oldlabels,
            final(self).mapping_oldlabel_labels == old(self).mapping_oldlabel_labels,
            final(self).mapping_oldlabel_text == old(self).mapping_oldlabel_text,
            old(self).mapping_label_oldlabels matches Some(v) ==> label_texts_view(final(self).mapping_label_text@) == names_of(named_labels_of_sets(v@)),
            old(self).mapping_label_oldlabels is None ==> exists|ls: Seq<Label>| #![trigger names_of(ls)] strictly_sorted(ls)
                && ls.to_set() == flat_labels(old(self).mapping_oldlabel_labels->Some_0@).to_set()
                && label_texts_view(final(self).mapping_label_text@) == names_of(ls),
    {
        match &self.mapping_label_oldlabels {
            Some(v) => {
                let mut ids: Vec<Label> = Vec::new();
                let mut i: usize = 0;
                while i < v.len()
                    invariant
                        i <= v@.len(),
                        ids@ == named_labels_of_sets(v@).subrange(0, i as int),
                    decreases v@.len() - i,
                {
                    ids.push(v[i].0);
                    i += 1;
                    assert(ids@ =~= named_labels_of_sets(v@).subrange(0, i as int));
                }
                assert(named_labels_of_sets(v@).subrange(0, i as int) =~= named_labels_of_sets(v@));
                proof {
                    if ids@.len() <= 62 {
                        assert forall|k: int| 0 <= k < ids@.len() implies #[trigger] ids@[k] <= 194 by {
                            assert(ids@[k] == v@[k].0);
                        }
                    }
                }
                self.mapping_label_text = label_names(&ids);
            },
            None => {
                let flat = match &self.mapping_oldlabel_labels {
                    Some(w) => flatten_sets(w),
                    None => Vec::new(),
                };
                let ls = sorted_unique(&flat);
                proof {
                    if ls@.len() <= 62 {
                        ls@.unique_seq_to_set();
                        assert forall|k: int| 0 <= k < ls@.len() implies #[trigger] ls@[k] <= 194 by {
                            assert(ls@.to_set().contains(ls@[k]));
                        }
                    }
                }
                self.mapping_label_text = label_names(&ls);
            },
        }
    }

    /// Whether some predecessor label allows its own group of labels on all
    /// the successors.
    pub fn is_trivial(&self) -> (r: bool)
        requires
            self.wf(),
            self.constraints@.len() > 0,
            self.constraints@[0].1.degree is Finite,
            self.constraints@[0].1.degree->Finite_0 <= 255,
        ensures
            r == exists|k: int| 0 <= k < self.constraints@.len() && constraint_includes(
                #[trigger] self.constraints@[k].1,
                seq![(GroupType::Many(self.constraints@[0].1.degree->Finite_0 as u8), self.constraints@[k].0@)],
            ),
    {
        let d = self.constraints[0].1.finite_degree();
        let e = d as u8;
        let mut k: usize = 0;
        while k < self.constraints.len()
            invariant
                self.wf(),
                self.constraints@.len() > 0,
                self.constraints@[0].1.degree == Degree::Finite(d),
                d <= 255,
                e == d,
                k <= self.constraints@.len(),
                forall|q: int| 0 <= q < k ==> !constraint_includes(
                    #[trigger] self.constraints@[q].1,
                    seq![(GroupType::Many(e), self.constraints@[q].0@)],
                ),
            decreases self.constraints@.len() - k,
        {
            let (g, c) = &self.constraints[k];
            let mut parts: Vec<Part> = Vec::new();
            parts.push(Part { gtype: GroupType::Many(e), group: g.duplicate() });
            let line = Line { parts };
            proof {
                assert(line@ =~= seq![(GroupType::Many(e), g@)]);
                assert(crate::line::degree_without_star_spec(line@) == e) by {
                    reveal_with_fuel(crate::line::degree_without_star_spec, 2);
                }
            }
            proof {
                crate::constraint::lemma_same_degree_defined(*c, line@);
            }
            if c.includes(&line) {
                return true;
            }
            k += 1;
        }
        false
    }

    /// Writes the problem: for each predecessor and each of its lines, the
    /// names of the predecessor labels, ` : ` and the line, each line
    /// followed by `\n`.
    pub fn to_string(&self) -> (r: String)
        requires
            names_all_directed(names_map(self.mapping_label_text@), self.constraints@),
        ensures
            r@ == directed_text(names_map(self.mapping_label_text@), self.constraints@),
    {
        let mut m: HashMap<Label, String> = HashMap::new();
        let mut i: usize = 0;
        let v = &self.mapping_label_text;
        while i < v.len()
            invariant
                i <= v@.len(),
                m@ == names_map(v@.subrange(0, i as int)),
            decreases v@.len() - i,
        {
            let s = v[i].1.clone();
            m.insert(v[i].0, s);
            proof {
                let sub = v@.subrange(0, i + 1);
                assert(sub.drop_last() =~= v@.subrange(0, i as int));
            }
            i += 1;
        }
        assert(v@.subrange(0, v@.len() as int) =~= v@);
        let ghost cs = self.constraints@;
        let mut s = String::new();
        let mut k: usize = 0;
        while k < self.constraints.len()
            invariant
                k <= cs.len(),
                cs == self.constraints@,
                names_all_directed(m@, cs),
                s@ == directed_text(m@, cs.subrange(0, k as int)),
            decreases cs.len() - k,
        {
            let (h, c) = &self.constraints[k];
            assert(names_all(m@, h@) && names_all_lines(m@, c@));
            let ghost start = s@;
            let mut q: usize = 0;
            while q < c.lines.len()
                invariant
                    q <= c@.len(),
                    names_all(m@, h@),
                    names_all_lines(m@, c@),
                    s@ == start + head_lines_text(m@, h@, c@.subrange(0, q as int)),
                decreases c@.len() - q,
            {
                push_labels_text(&mut s, &m, h);
                push_str(&mut s, " : ");
                assert(crate::line::names_all_parts(m@, c@[q as int]));
                let t = c.lines[q].to_string(&m);
                push_str(&mut s, t.as_str());
                push_char(&mut s, '\n');
                proof {
                    reveal_strlit(" : ");
                    let sub = c@.subrange(0, q + 1);
                    assert(sub.drop_last() =~= c@.subrange(0, q as int));
                    assert(sub.last() == c.lines@[q as int]@);
                    assert(s@ =~= start + head_lines_text(m@, h@, sub));
                }
                q += 1;
            }
            proof {
                assert(c@.subrange(0, c@.len() as int) =~= c@);
                let sub = cs.subrange(0, k + 1);
                assert(sub.drop_last() =~= cs.subrange(0, k as int));
                assert(s@ =~= directed_text(m@, sub));
            }
            k += 1;
        }
        assert(cs.subrange(0, cs.len() as int) =~= cs);
        s
    }
}

/// The views of the predecessor groups and constraints.
pub open spec fn directed_view(cs: Seq<(Group, Constraint)>) -> Seq<(Seq<Label>, Seq<Seq<PartV>>)> {
    cs.map_values(|e: (Group, Constraint)| (e.0@, e.1@))
}

/// The lines of the constraints whose predecessor group holds `l`,
/// constraint after constraint.
pub open spec fn gathered(cv: Seq<(Seq<Label>, Seq<Seq<PartV>>)>, l: Label) -> Seq<Seq<PartV>>
    decreases cv.len(),
{
    if cv.len() == 0 {
        Seq::empty()
    } else if cv.last().0.contains(l) {
        gathered(cv.drop_last(), l) + cv.last().1
    } else {
        gathered(cv.drop_last(), l)
    }
}

/// The labels that some line is given for.
pub open spec fn has_lines(cv: Seq<(Seq<Label>, Seq<Seq<PartV>>)>) -> spec_fn(Label) -> bool {
    |l: Label| gathered(cv, l).len() > 0
}

/// `r` is what maximizing gives from the constraints `cv` of degree `d`
/// and the named labels `names`: for each of these labels in increasing
/// order that some line is given for, one maximized constraint of degree
/// `d` with the group of that label as predecessor.
pub open spec fn maximized_constraints(
    cv: Seq<(Seq<Label>, Seq<Seq<PartV>>)>,
    d: Degree,
    names: Seq<Label>,
    r: Seq<(Group, Constraint)>,
) -> bool {
    exists|lab: Seq<Label>| #![trigger lab.filter(has_lines(cv))] {
        &&& sorted_labels(lab)
        &&& lab.to_multiset() == names.to_multiset()
        &&& r.len() == lab.filter(has_lines(cv)).len()
        &&& forall|k: int| 0 <= k < r.len() ==> {
            &&& (#[trigger] r[k]).0@ == seq![lab.filter(has_lines(cv))[k]]
            &&& r[k].1.wf()
            &&& r[k].1.degree == d
            &&& r[k].1.is_maximized
            &&& forall|q: int| 0 <= q < r[k].1@.len() ==> no_zero(#[trigger] r[k].1@[q])
            &&& label_maximized(cv, lab.filter(has_lines(cv))[k], r[k].1)
        }
    }
}

/// The constraint `c` given to label `l` is the maximization of the lines
/// gathered for `l` (kept maximal as they were added): each of those lines,
/// in normal form, is included by a line of `c` through a chain of
/// inclusions, no two lines of `c` can be joined in one part, and the join
/// of any two gathered lines one part apart that includes both is covered.
pub open spec fn label_maximized(cv: Seq<(Seq<Label>, Seq<Seq<PartV>>)>, l: Label, c: Constraint) -> bool {
    let g = discard_spec(gathered(cv, l));
    &&& normal_lines_covered(g, c@, g.len() as int)
    &&& no_joinable_pair(c@)
    &&& exists|ns: Seq<Seq<PartV>>| #![trigger joins_covered(ns, c@)] ns.len() == g.len()
        && (forall|k: int| 0 <= k < ns.len() ==> normalized_from(#[trigger] ns[k], g[k]))
        && joins_covered(ns, c@)
}

/// Adding one more line to the lines kept maximal.
proof fn lemma_discard_push(a: Seq<Seq<PartV>>, x: Seq<PartV>)
    ensures
        discard_spec(a.push(x)) == add_line_spec(discard_spec(a), x),
{
    assert(a.push(x).drop_last() =~= a);
}

/// Adding a line leaves some line.
proof fn lemma_add_line_not_empty(ls: Seq<Seq<PartV>>, n: Seq<PartV>)
    ensures
        add_line_spec(ls, n).len() > 0,
{
    let kept = not_included_by(ls, n);
    if kept.len() == ls.len() && !(forall|k: int| 0 <= k < kept.len() ==> !included(#[trigger] kept[k], n)) {
        let k = choose|k: int| !(0 <= k < kept.len() ==> !included(#[trigger] kept[k], n));
        assert(kept.len() > 0);
    }
}

impl DirectedProblem {
    /// Gives each label one constraint: for each label that has a name, in
    /// increasing order, the lines of the constraints whose predecessor
    /// group holds it are added one after the other, keeping the maximal
    /// ones, and the result, when not empty, is maximized.
    pub fn maximize(&mut self)
        requires
            old(self).wf(),
            old(self).constraints@.len() > 0,
        ensures
            final(self).wf(),
            final(self).mapping_label_text == old(self).mapping_label_text,
            final(self).mapping_label_oldlabels == old(self).mapping_label_oldlabels,
            final(self).mapping_oldlabel_labels == old(self).mapping_oldlabel_labels,
            final(self).mapping_oldlabel_text == old(self).mapping_oldlabel_text,
            maximized_constraints(directed_view(old(self).constraints@), old(self).constraints@[0].1.degree,
                named_labels(old(self).mapping_label_text@), final(self).constraints@),
    {
        let lab = self.labels();
        let ghost cs = self.constraints@;
        let ghost cv = directed_view(cs);
        let ghost pred = has_lines(cv);
        let d = self.constraints[0].1.degree;
        let mut newc: Vec<(Group, Constraint)> = Vec::new();
        let mut i: usize = 0;
        assert(lab@.subrange(0, 0).filter(pred) =~= Seq::<Label>::empty());
        while i < lab.len()
            invariant
                i <= lab@.len(),
                cs == self.constraints@,
                directed_wf(cs),
                cs.len() > 0,
                d == cs[0].1.degree,
                cv == directed_view(cs),
                pred == has_lines(cv),
                newc@.len() == lab@.subrange(0, i as int).filter(pred).len(),
                forall|k: int| 0 <= k < newc@.len() ==> {
                    &&& (#[trigger] newc@[k]).0@ == seq![lab@.subrange(0, i as int).filter(pred)[k]]
                    &&& newc@[k].1.wf()
                    &&& newc@[k].1.degree == d
                    &&& newc@[k].1.is_maximized
                    &&& forall|q: int| 0 <= q < newc@[k].1@.len() ==> no_zero(#[trigger] newc@[k].1@[q])
                    &&& label_maximized(cv, lab@.subrange(0, i as int).filter(pred)[k], newc@[k].1)
                },
            decreases lab@.len() - i,
        {
            let l = lab[i];
            let mut c = Constraint { lines: Vec::new(), is_maximized: false, degree: d };
            let mut k: usize = 0;
            assert(cs.subrange(0, 0) =~= Seq::<(Group, Constraint)>::empty());
            assert(c@ =~= discard_spec(gathered(directed_view(cs.subrange(0, 0)), l)));
            while k < self.constraints.len()
                invariant
                    k <= cs.len(),
                    cs == self.constraints@,
                    directed_wf(cs),
                    cs.len() > 0,
                    d == cs[0].1.degree,
                    c.wf(),
                    c.degree == d,
                    !c.is_maximized,
                    c@.len() > 0 <==> gathered(directed_view(cs.subrange(0, k as int)), l).len() > 0,
                    c@ == discard_spec(gathered(directed_view(cs.subrange(0, k as int)), l)),
                decreases cs.len() - k,
            {
                let (h, ck) = &self.constraints[k];
                assert(cs.subrange(0, k + 1).drop_last() =~= cs.subrange(0, k as int));
                assert(cs.subrange(0, k + 1).last() == cs[k as int]);
                assert(directed_view(cs.subrange(0, k + 1)).drop_last() =~= directed_view(cs.subrange(0, k as int)));
                assert(cs[k as int].1.wf());
                if h.contains(l) {
                    let mut q: usize = 0;
                    let ghost c0 = c@.len();
                    while q < ck.lines.len()
                        invariant
                            q <= ck@.len(),
                            ck.wf(),
                            ck.degree == d,
                            c.wf(),
                            c.degree == d,
                            !c.is_maximized,
                            c0 > 0 ==> c@.len() > 0,
                            q > 0 ==> c@.len() > 0,
                            q == 0 ==> c@.len() == c0,
                            c@ == discard_spec(gathered(directed_view(cs.subrange(0, k as int)), l) + ck@.subrange(0, q as int)),
                        decreases ck@.len() - q,
                    {
                        let line = ck.lines[q].duplicate();
                        let ghost before = c@;
                        let ghost gp = gathered(directed_view(cs.subrange(0, k as int)), l);
                        c.add_line_and_discard_non_maximal(line);
                        proof {
                            lemma_add_line_not_empty(before, line@);
                            assert(gp + ck@.subrange(0, q + 1) =~= (gp + ck@.subrange(0, q as int)).push(line@));
                            lemma_discard_push(gp + ck@.subrange(0, q as int), line@);
                        }
                        q += 1;
                    }
                    proof {
                        assert(ck@.subrange(0, ck@.len() as int) =~= ck@);
                    }
                }
                k += 1;
            }
            assert(cs.subrange(0, cs.len() as int) =~= cs);
            assert(directed_view(cs.subrange(0, cs.len() as int)) == cv);
            proof {
                lab@.subrange(0, i as int).lemma_filter_push(l, pred);
                assert(lab@.subrange(0, i + 1) =~= lab@.subrange(0, i as int).push(l));
            }
            if c.lines.len() > 0 {
                let ghost cb = c;
                c.maximize();
                assert(label_maximized(cv, l, c));
                let mut one: Vec<Label> = Vec::new();
                one.push(l);
                let ghost before = newc@;
                newc.push((Group(one), c));
                proof {
                    let f = lab@.subrange(0, i + 1).filter(pred);
                    assert(f == lab@.subrange(0, i as int).filter(pred).push(l));
                    assert forall|k: int| 0 <= k < newc@.len() implies (#[trigger] newc@[k]).0@ == seq![f[k]] by {
                        if k < before.len() {
                            assert(newc@[k] == before[k]);
                        } else {
                            assert(newc@[k].0@ =~= seq![l]);
                        }
                    }
                }
            }
            i += 1;
        }
        assert(lab@.subrange(0, lab@.len() as int) =~= lab@);
        proof {
            assert forall|k: int| 0 <= k < newc@.len() implies (#[trigger] newc@[k]).0.wf() by {
                assert(newc@[k].0@ =~= seq![newc@[k].0@[0]]);
            }
        }
        self.constraints = newc;
        assert(lab@.filter(pred) == lab@.subrange(0, lab@.len() as int).filter(pred));
    }
}

/// The nonempty intersections of the sets of `s` with `g`.
pub open spec fn meets_with(s: Set<Set<Label>>, g: Set<Label>) -> Set<Set<Label>> {
    Set::new(|x: Set<Label>| exists|y: Set<Label>| #[trigger] s.contains(y) && x == y.intersect(g) && x != Set::<Label>::empty())
}

/// The groups `gs` with the nonempty intersections of any of them, as sets:
/// group after group, the group is added, and so are its nonempty
/// intersections with what was there.
pub open spec fn meets(gs: Seq<Seq<Label>>) -> Set<Set<Label>>
    decreases gs.len(),
{
    if gs.len() == 0 {
        Set::empty()
    } else {
        let s = meets(gs.drop_last());
        let g = gs.last().to_set();
        s.insert(g).union(meets_with(s, g))
    }
}

/// The nonempty intersection of two sets of `s` belongs to `s`.
pub open spec fn closed_under_meets(s: Set<Set<Label>>) -> bool {
    forall|x: Set<Label>, y: Set<Label>|
        #![trigger s.contains(x), s.contains(y)]
        s.contains(x) && s.contains(y) && x.intersect(y) != Set::<Label>::empty() ==> s.contains(x.intersect(y))
}

proof fn lemma_meets_grow(gs: Seq<Seq<Label>>)
    requires
        gs.len() > 0,
    ensures
        meets(gs.drop_last()).subset_of(meets(gs)),
{
}

proof fn lemma_has_element(x: Set<Label>) -> (e: Label)
    requires
        x != Set::<Label>::empty(),
    ensures
        x.contains(e),
{
    if !(exists|e: Label| x.contains(e)) {
        assert(x =~= Set::<Label>::empty());
    }
    choose|e: Label| x.contains(e)
}

/// Each group belongs to its meets.
pub proof fn law_meets_hold_the_groups(gs: Seq<Seq<Label>>, k: int)
    requires
        0 <= k < gs.len(),
    ensures
        meets(gs).contains(gs[k].to_set()),
    decreases gs.len(),
{
    if k < gs.len() - 1 {
        law_meets_hold_the_groups(gs.drop_last(), k);
        lemma_meets_grow(gs);
    }
}

/// The meets of some groups are closed under nonempty intersection.
pub proof fn law_meets_are_closed(gs: Seq<Seq<Label>>)
    ensures
        closed_under_meets(meets(gs)),
    decreases gs.len(),
{
    if gs.len() > 0 {
        let s = meets(gs.drop_last());
        let g = gs.last().to_set();
        let m = meets(gs);
        law_meets_are_closed(gs.drop_last());
        assert forall|x: Set<Label>, y: Set<Label>|
            #![trigger m.contains(x), m.contains(y)]
            m.contains(x) && m.contains(y) && x.intersect(y) != Set::<Label>::empty() implies m.contains(x.intersect(y)) by {
            let e = lemma_has_element(x.intersect(y));
            let xw = meets_with(s, g).contains(x) && !s.contains(x) && x != g;
            let yw = meets_with(s, g).contains(y) && !s.contains(y) && y != g;
            if s.contains(x) && s.contains(y) {
                assert(s.contains(x.intersect(y)));
            } else if s.contains(x) && y == g {
                assert(meets_with(s, g).contains(x.intersect(y)));
            } else if x == g && s.contains(y) {
                assert(x.intersect(y) =~= y.intersect(g));
                assert(meets_with(s, g).contains(y.intersect(g)));
            } else if x == g && y == g {
                assert(x.intersect(y) =~= g);
            } else if s.contains(x) && yw {
                let y0 = choose|y0: Set<Label>| #[trigger] s.contains(y0) && y == y0.intersect(g) && y != Set::<Label>::empty();
                assert(x.intersect(y0).contains(e));
                assert(x.intersect(y0) != Set::<Label>::empty());
                assert(s.contains(x.intersect(y0)));
                assert(x.intersect(y) =~= x.intersect(y0).intersect(g));
                assert(meets_with(s, g).contains(x.intersect(y0).intersect(g)));
            } else if xw && s.contains(y) {
                let x0 = choose|x0: Set<Label>| #[trigger] s.contains(x0) && x == x0.intersect(g) && x != Set::<Label>::empty();
                assert(x0.intersect(y).contains(e));
                assert(x0.intersect(y) != Set::<Label>::empty());
                assert(s.contains(x0.intersect(y)));
                assert(x.intersect(y) =~= x0.intersect(y).intersect(g));
                assert(meets_with(s, g).contains(x0.intersect(y).intersect(g)));
            } else if x == g && yw {
                assert(x.intersect(y) =~= y);
            } else if xw && y == g {
                assert(x.intersect(y) =~= x);
            } else {
                assert(xw && yw);
                let x0 = choose|x0: Set<Label>| #[trigger] s.contains(x0) && x == x0.intersect(g) && x != Set::<Label>::empty();
                let y0 = choose|y0: Set<Label>| #[trigger] s.contains(y0) && y == y0.intersect(g) && y != Set::<Label>::empty();
                assert(x0.intersect(y0).contains(e));
                assert(x0.intersect(y0) != Set::<Label>::empty());
                assert(s.contains(x0.intersect(y0)));
                assert(x.intersect(y) =~= x0.intersect(y0).intersect(g));
                assert(meets_with(s, g).contains(x0.intersect(y0).intersect(g)));
            }
        }
    }
}

/// Any set of sets that holds the groups and is closed under nonempty
/// intersection holds their meets.
pub proof fn law_meets_are_least(gs: Seq<Seq<Label>>, x: Set<Set<Label>>)
    requires
        forall|k: int| 0 <= k < gs.len() ==> x.contains(#[trigger] gs[k].to_set()),
        closed_under_meets(x),
    ensures
        meets(gs).subset_of(x),
    decreases gs.len(),
{
    if gs.len() > 0 {
        let s = meets(gs.drop_last());
        let g = gs.last().to_set();
        assert forall|k: int| 0 <= k < gs.drop_last().len() implies x.contains(#[trigger] gs.drop_last()[k].to_set()) by {
            assert(gs.drop_last()[k] == gs[k]);
        }
        law_meets_are_least(gs.drop_last(), x);
        assert(x.contains(g)) by {
            assert(x.contains(gs[gs.len() - 1].to_set()));
        }
        assert forall|z: Set<Label>| meets(gs).contains(z) implies x.contains(z) by {
            if meets_with(s, g).contains(z) && !s.contains(z) && z != g {
                let y = choose|y: Set<Label>| #[trigger] s.contains(y) && z == y.intersect(g) && z != Set::<Label>::empty();
                assert(x.contains(y));
            }
        }
    }
}

/// The groups with all their nonempty intersections, each once, as
/// increasing sequences of labels.
fn meet_closure(gs: &Vec<Group>) -> (r: Vec<Vec<Label>>)
    requires
        forall|k: int| 0 <= k < gs@.len() ==> (#[trigger] gs@[k]).wf(),
    ensures
        distinct_sorted(vecs_view(r@)),
        sets_of(vecs_view(r@)) == meets(gs@.map_values(|g: Group| g@)),
{
    let ghost gv = gs@.map_values(|g: Group| g@);
    let mut r: Vec<Vec<Label>> = Vec::new();
    let mut i: usize = 0;
    assert(sets_of(vecs_view(r@)) =~= Set::<Set<Label>>::empty());
    while i < gs.len()
        invariant
            i <= gs@.len(),
            gv == gs@.map_values(|g: Group| g@),
            forall|k: int| 0 <= k < gs@.len() ==> (#[trigger] gs@[k]).wf(),
            distinct_sorted(vecs_view(r@)),
            sets_of(vecs_view(r@)) == meets(gv.subrange(0, i as int)),
        decreases gs@.len() - i,
    {
        let g = &gs[i];
        assert(g.wf());
        let ghost gset = g@.to_set();
        let ghost prev = vecs_view(r@);
        let ghost sp = sets_of(prev);
        let n0 = r.len();
        add_unique(&mut r, copy_labels(&g.0));
        let mut j: usize = 0;
        assert(Set::new(|x: Set<Label>| exists|q: int| 0 <= q < 0 && x == (#[trigger] prev[q]).to_set().intersect(gset) && x != Set::<Label>::empty()) =~= Set::<Set<Label>>::empty());
        assert(sets_of(vecs_view(r@)) =~= sp.insert(gset).union(Set::new(|x: Set<Label>| exists|q: int| 0 <= q < 0 && x == (#[trigger] prev[q]).to_set().intersect(gset) && x != Set::<Label>::empty())));
        while j < n0
            invariant
                j <= n0,
                n0 == prev.len(),
                n0 <= r@.len(),
                g.wf(),
                gset == g@.to_set(),
                sp == sets_of(prev),
                vecs_view(r@).subrange(0, n0 as int) == prev,
                distinct_sorted(vecs_view(r@)),
                sets_of(vecs_view(r@)) == sp.insert(gset).union(Set::new(|x: Set<Label>| exists|q: int| 0 <= q < j
                    && x == (#[trigger] prev[q]).to_set().intersect(gset) && x != Set::<Label>::empty())),
            decreases n0 - j,
        {
            assert(vecs_view(r@)[j as int] == prev[j as int]);
            let y = Group(copy_labels(&r[j]));
            assert(y@ == prev[j as int]);
            let common = y.intersection(g);
            let ghost before = vecs_view(r@);
            let ghost now = Set::new(|x: Set<Label>| exists|q: int| 0 <= q < j + 1
                && x == (#[trigger] prev[q]).to_set().intersect(gset) && x != Set::<Label>::empty());
            let ghost was = Set::new(|x: Set<Label>| exists|q: int| 0 <= q < j
                && x == (#[trigger] prev[q]).to_set().intersect(gset) && x != Set::<Label>::empty());
            if !common.is_empty() {
                assert(common@.len() > 0);
                assert(common@.to_set().contains(common@[0]));
                assert(common@.to_set() != Set::<Label>::empty());
                add_unique(&mut r, common.0);
                proof {
                    assert(vecs_view(r@).subrange(0, n0 as int) =~= prev);
                    assert(now =~= was.insert(prev[j as int].to_set().intersect(gset)));
                    assert(sets_of(vecs_view(r@)) =~= sp.insert(gset).union(now));
                }
            } else {
                proof {
                    assert(common@ =~= Seq::<Label>::empty());
                    assert(prev[j as int].to_set().intersect(gset) =~= Set::<Label>::empty()) by {
                        assert forall|e: Label| !(prev[j as int].to_set().intersect(gset).contains(e)) by {
                            assert(!common.labels().contains(e));
                        }
                    }
                    assert(now =~= was);
                }
            }
            j += 1;
        }
        proof {
            let w = Set::new(|x: Set<Label>| exists|q: int| 0 <= q < n0
                && x == (#[trigger] prev[q]).to_set().intersect(gset) && x != Set::<Label>::empty());
            assert(w =~= meets_with(sp, gset)) by {
                assert forall|x: Set<Label>| w.contains(x) implies meets_with(sp, gset).contains(x) by {
                    let q = choose|q: int| 0 <= q < n0 && x == (#[trigger] prev[q]).to_set().intersect(gset) && x != Set::<Label>::empty();
                    assert(sp.contains(prev[q].to_set()));
                }
                assert forall|x: Set<Label>| meets_with(sp, gset).contains(x) implies w.contains(x) by {
                    let y = choose|y: Set<Label>| #[trigger] sp.contains(y) && x == y.intersect(gset) && x != Set::<Label>::empty();
                    let q = choose|q: int| 0 <= q < prev.len() && #[trigger] prev[q].to_set() == y;
                    assert(x == prev[q].to_set().intersect(gset));
                }
            }
            let sub = gv.subrange(0, i + 1);
            assert(sub.drop_last() =~= gv.subrange(0, i as int));
            assert(sub.last() == g@);
        }
        i += 1;
    }
    assert(gv.subrange(0, gv.len() as int) =~= gv);
    r
}

/// The groups of all lines of all constraints, constraint after constraint.
pub open spec fn all_groups(cv: Seq<(Seq<Label>, Seq<Seq<PartV>>)>) -> Seq<Seq<Label>>
    decreases cv.len(),
{
    if cv.len() == 0 {
        Seq::empty()
    } else {
        all_groups(cv.drop_last()) + groups_spec(cv.last().1)
    }
}

/// The positions of `names` whose labels hold `l`, as labels.
pub open spec fn positions_holding(names: Seq<Seq<Label>>, l: Label) -> Set<Label> {
    Set::new(|x: Label| exists|q: int| 0 <= q < names.len() && x == q as Label && (#[trigger] names[q]).contains(l))
}

proof fn lemma_all_groups_sorted(m: Seq<(Group, Constraint)>)
    requires
        forall|k: int| 0 <= k < m.len() ==> (#[trigger] m[k]).1.wf(),
    ensures
        forall|q: int| 0 <= q < all_groups(directed_view(m)).len() ==> strictly_sorted(#[trigger] all_groups(directed_view(m))[q]),
    decreases m.len(),
{
    if m.len() > 0 {
        let cv = directed_view(m);
        assert(cv.drop_last() =~= directed_view(m.drop_last()));
        assert forall|k: int| 0 <= k < m.drop_last().len() implies (#[trigger] m.drop_last()[k]).1.wf() by {
            assert(m.drop_last()[k] == m[k]);
        }
        lemma_all_groups_sorted(m.drop_last());
        let last = m[m.len() - 1].1;
        assert(last.wf());
        assert(cv.last().1 == last@);
        assert forall|k: int, i: int| 0 <= k < last@.len() && 0 <= i < last@[k].len() implies strictly_sorted(#[trigger] last@[k][i].1) by {
            assert(last.lines@[k].wf());
            assert(last@[k] == last.lines@[k]@);
        }
        lemma_groups_sorted(last@);
        let a = all_groups(cv.drop_last());
        let b = groups_spec(last@);
        assert forall|q: int| 0 <= q < all_groups(cv).len() implies strictly_sorted(#[trigger] all_groups(cv)[q]) by {
            if q < a.len() {
                assert(all_groups(cv)[q] == a[q]);
            } else {
                assert(all_groups(cv)[q] == b[q - a.len()]);
            }
        }
    }
}


/// The group of the positions of `names` whose labels hold `hl`.
fn head_group(names: &Vec<Vec<Label>>, hl: Label) -> (r: Group)
    ensures
        r.wf(),
        r@ == sorted_of(positions_holding(vecs_view(names@), hl)),
{
    let ghost nv = vecs_view(names@);
    let mut hv: Vec<Label> = Vec::new();
    let mut q: usize = 0;
    while q < names.len()
        invariant
            q <= names@.len(),
            nv == vecs_view(names@),
            hv@.to_set() == Set::new(|x: Label| exists|j: int| 0 <= j < q && x == j as Label && (#[trigger] nv[j]).contains(hl)),
        decreases names@.len() - q,
    {
        let ghost before = hv@;
        let mut holds = false;
        let mut t: usize = 0;
        while t < names[q].len()
            invariant
                q < names@.len(),
                t <= names@[q as int]@.len(),
                holds <==> names@[q as int]@.subrange(0, t as int).contains(hl),
            decreases names@[q as int]@.len() - t,
        {
            if names[q][t] == hl {
                holds = true;
            }
            proof {
                let sub = names@[q as int]@.subrange(0, t + 1);
                assert(sub =~= names@[q as int]@.subrange(0, t as int).push(names@[q as int]@[t as int]));
                if sub.contains(hl) && !(names@[q as int]@[t as int] == hl) {
                    let w = choose|w: int| 0 <= w < sub.len() && sub[w] == hl;
                    assert(names@[q as int]@.subrange(0, t as int)[w] == hl);
                }
                if names@[q as int]@.subrange(0, t as int).contains(hl) {
                    let w = choose|w: int| 0 <= w < t && names@[q as int]@.subrange(0, t as int)[w] == hl;
                    assert(sub[w] == hl);
                }
                if names@[q as int]@[t as int] == hl {
                    assert(sub[t as int] == hl);
                }
            }
            t += 1;
        }
        assert(names@[q as int]@.subrange(0, names@[q as int]@.len() as int) =~= names@[q as int]@);
        assert(nv[q as int] == names@[q as int]@);
        if holds {
            let l = #[verifier::truncate] (q as Label);
            hv.push(l);
            proof {
                before.lemma_push_to_set_commute(l);
            }
        }
        proof {
            let now = Set::new(|x: Label| exists|j: int| 0 <= j < q + 1 && x == j as Label && (#[trigger] nv[j]).contains(hl));
            let was = Set::new(|x: Label| exists|j: int| 0 <= j < q && x == j as Label && (#[trigger] nv[j]).contains(hl));
            assert forall|x: Label| hv@.to_set().contains(x) <==> now.contains(x) by {
                if now.contains(x) {
                    let j = choose|j: int| 0 <= j < q + 1 && x == j as Label && (#[trigger] nv[j]).contains(hl);
                    if j < q {
                        assert(was.contains(x));
                    }
                }
                if was.contains(x) {
                    let j = choose|j: int| 0 <= j < q && x == j as Label && (#[trigger] nv[j]).contains(hl);
                    assert(now.contains(x));
                }
            }
            assert(hv@.to_set() =~= now);
        }
        q += 1;
    }
    let r = Group::from_labels(&hv);
    proof {
        assert(hv@.to_set() =~= positions_holding(nv, hl));
        crate::edit::lemma_sorted_of(r@);
        assert(r@.to_set() == r.labels());
    }
    r
}


/// The groups with all their nonempty intersections, each once, ordered
/// from their last labels on.
fn closure_names(gs: &Vec<Group>) -> (r: Vec<Vec<Label>>)
    requires
        forall|k: int| 0 <= k < gs@.len() ==> (#[trigger] gs@[k]).wf(),
    ensures
        distinct_sorted(vecs_view(r@)),
        rev_sorted(vecs_view(r@)),
        sets_of(vecs_view(r@)) == meets(gs@.map_values(|g: Group| g@)),
{
    let closure = meet_closure(gs);
    proof {
        let cl = vecs_view(closure@);
        assert forall|i: int, j: int| 0 <= i < j < closure@.len() implies (#[trigger] closure@[i])@ != (#[trigger] closure@[j])@ by {
            assert(cl[i] == closure@[i]@ && cl[j] == closure@[j]@);
        }
    }
    let names = sort_by_last_labels(&closure);
    proof {
        let nv = vecs_view(names@);
        let cl = vecs_view(closure@);
        assert(nv.to_set() == cl.to_set());
        assert forall|i: int| 0 <= i < nv.len() implies strictly_sorted(#[trigger] nv[i]) by {
            assert(nv.to_set().contains(nv[i]));
            let q = choose|q: int| 0 <= q < cl.len() && cl[q] == nv[i];
        }
        assert forall|i: int, j: int| 0 <= i < j < nv.len() implies #[trigger] nv[i] != #[trigger] nv[j] by {
            crate::order::lemma_seq_lt_irreflexive(nv[i].reverse());
        }
        assert(sets_of(nv) =~= sets_of(cl)) by {
            assert forall|x: Set<Label>| sets_of(nv).contains(x) implies sets_of(cl).contains(x) by {
                let i = choose|i: int| 0 <= i < nv.len() && #[trigger] nv[i].to_set() == x;
                assert(nv.to_set().contains(nv[i]));
                let q = choose|q: int| 0 <= q < cl.len() && cl[q] == nv[i];
            }
            assert forall|x: Set<Label>| sets_of(cl).contains(x) implies sets_of(nv).contains(x) by {
                let q = choose|q: int| 0 <= q < cl.len() && #[trigger] cl[q].to_set() == x;
                assert(cl.to_set().contains(cl[q]));
                let i = choose|i: int| 0 <= i < nv.len() && nv[i] == cl[q];
            }
        }
    }
    names
}

/// Each position of `names` as a label, with the labels at it.
fn numbered_label_sets(names: &Vec<Vec<Label>>) -> (r: Vec<LabelSet>)
    ensures
        label_sets_view(r@) == numbered_sets(vecs_view(names@)),
{
    let ghost nv = vecs_view(names@);
    let mut sets: Vec<LabelSet> = Vec::new();
    let mut i: usize = 0;
    while i < names.len()
        invariant
            i <= names@.len(),
            nv == vecs_view(names@),
            label_sets_view(sets@) == numbered_sets(nv).subrange(0, i as int),
        decreases names@.len() - i,
    {
        let l = #[verifier::truncate] (i as Label);
        let ghost before = sets@;
        sets.push((l, copy_labels(&names[i])));
        proof {
            assert(label_sets_view(sets@) =~= label_sets_view(before).push((l, nv[i as int])));
            assert(numbered_sets(nv).subrange(0, i + 1) =~= numbered_sets(nv).subrange(0, i as int).push((l, nv[i as int])));
        }
        i += 1;
    }
    assert(numbered_sets(nv).subrange(0, nv.len() as int) =~= numbered_sets(nv));
    sets
}

/// The constraints of a speedup: each predecessor becomes the positions of
/// `names` that hold its label, and each group of a constraint the
/// positions whose labels it holds all.
fn speedup_constraints(m: &Vec<(Group, Constraint)>, names: &Vec<Vec<Label>>, d: Degree) -> (r: Vec<(Group, Constraint)>)
    requires
        forall|q: int| 0 <= q < m@.len() ==> (#[trigger] m@[q]).0@.len() > 0 && m@[q].1.wf() && m@[q].1.degree == d,
    ensures
        r@.len() == m@.len(),
        forall|q: int| 0 <= q < m@.len() ==> {
            &&& (#[trigger] r@[q]).0@ == sorted_of(positions_holding(vecs_view(names@), m@[q].0@[0]))
            &&& r@[q].0.wf()
            &&& r@[q].1.wf()
            &&& exists|ns: Vec<Vec<Label>>| #[trigger] vecs_view(ns@) == vecs_view(names@) && edited_lines(EditOp::Within { names: ns }, m@[q].1@, r@[q].1@)
            &&& r@[q].1.degree == d
        },
{
    let ghost nv = vecs_view(names@);
    let mut newc: Vec<(Group, Constraint)> = Vec::new();
    let mut k: usize = 0;
    while k < m.len()
        invariant
            k <= m@.len(),
            nv == vecs_view(names@),
            forall|q: int| 0 <= q < m@.len() ==> (#[trigger] m@[q]).0@.len() > 0 && m@[q].1.wf() && m@[q].1.degree == d,
            newc@.len() == k,
            forall|q: int| 0 <= q < k ==> {
                &&& (#[trigger] newc@[q]).0@ == sorted_of(positions_holding(nv, m@[q].0@[0]))
                &&& newc@[q].0.wf()
                &&& newc@[q].1.wf()
                &&& exists|ns: Vec<Vec<Label>>| #[trigger] vecs_view(ns@) == nv && edited_lines(EditOp::Within { names: ns }, m@[q].1@, newc@[q].1@)
                &&& newc@[q].1.degree == d
            },
        decreases m@.len() - k,
    {
        let (h, c) = &m[k];
        let hl = h.first();
        let head = head_group(names, hl);
        let ns = copy_names(names);
        let ghost gns = ns;
        assert(vecs_view(gns@) =~= nv);
        let op = EditOp::Within { names: ns };
        let nc = c.edit_constraint(&op);
        let ghost before = newc@;
        newc.push((head, nc));
        proof {
            assert(vecs_view(gns@) == nv && edited_lines(EditOp::Within { names: gns }, m@[k as int].1@, newc@[k as int].1@));
            assert forall|q: int| 0 <= q < k + 1 implies {
                &&& (#[trigger] newc@[q]).0@ == sorted_of(positions_holding(nv, m@[q].0@[0]))
                &&& newc@[q].0.wf()
                &&& newc@[q].1.wf()
                &&& exists|ns: Vec<Vec<Label>>| #[trigger] vecs_view(ns@) == nv && edited_lines(EditOp::Within { names: ns }, m@[q].1@, newc@[q].1@)
                &&& newc@[q].1.degree == d
            } by {
                if q < k {
                    assert(newc@[q] == before[q]);
                }
            }
        }
        k += 1;
    }
    newc
}

/// A copy of the predecessor groups and constraints.
fn copy_constraints(cs: &Vec<(Group, Constraint)>) -> (r: Vec<(Group, Constraint)>)
    ensures
        directed_view(r@) == directed_view(cs@),
        r@.len() == cs@.len(),
        forall|k: int| 0 <= k < r@.len() ==> (#[trigger] r@[k]).1.degree == cs@[k].1.degree
            && r@[k].1.is_maximized == cs@[k].1.is_maximized
            && (cs@[k].1.wf() ==> r@[k].1.wf())
            && (cs@[k].0.wf() ==> r@[k].0.wf()),
{
    let mut r: Vec<(Group, Constraint)> = Vec::new();
    let mut i: usize = 0;
    while i < cs.len()
        invariant
            i <= cs@.len(),
            r@.len() == i,
            directed_view(r@) == directed_view(cs@).subrange(0, i as int),
            forall|k: int| 0 <= k < r@.len() ==> (#[trigger] r@[k]).1.degree == cs@[k].1.degree
                && r@[k].1.is_maximized == cs@[k].1.is_maximized
                && (cs@[k].1.wf() ==> r@[k].1.wf())
                && (cs@[k].0.wf() ==> r@[k].0.wf()),
        decreases cs@.len() - i,
    {
        let e = (cs[i].0.duplicate(), cs[i].1.duplicate());
        r.push(e);
        i += 1;
        assert(directed_view(r@) =~= directed_view(cs@).subrange(0, i as int));
    }
    assert(directed_view(cs@).subrange(0, i as int) =~= directed_view(cs@));
    r
}

/// `r` is the speedup of `p` through the maximized constraints `m` and the
/// new labels `names`: `m` is what maximizing `p` gives; `names` are the
/// groups of `m` with all their nonempty intersections, each once, ordered
/// from their last labels on, and label `i` stands for `names[i]`; each
/// predecessor becomes the labels whose sets hold its label, and each
/// constraint is edited so that a group becomes the labels whose sets it
/// holds.
pub open spec fn speedup_result(p: DirectedProblem, m: Seq<(Group, Constraint)>, names: Vec<Vec<Label>>, r: DirectedProblem) -> bool {
    &&& maximized_constraints(directed_view(p.constraints@), p.constraints@[0].1.degree, named_labels(p.mapping_label_text@), m)
    &&& distinct_sorted(vecs_view(names@))
    &&& rev_sorted(vecs_view(names@))
    &&& sets_of(vecs_view(names@)) == meets(all_groups(directed_view(m)))
    &&& r.mapping_label_oldlabels matches Some(v) && label_sets_view(v@) == numbered_sets(vecs_view(names@))
    &&& r.constraints@.len() == m.len()
    &&& forall|k: int| 0 <= k < m.len() ==> {
        &&& (#[trigger] r.constraints@[k]).0@ == sorted_of(positions_holding(vecs_view(names@), m[k].0@[0]))
        &&& exists|ns: Vec<Vec<Label>>| #[trigger] vecs_view(ns@) == vecs_view(names@) && edited_lines(EditOp::Within { names: ns }, m[k].1@, r.constraints@[k].1@)
        &&& r.constraints@[k].1.degree == p.constraints@[0].1.degree
    }
}

impl DirectedProblem {
    /// The groups of all lines of all constraints, constraint after
    /// constraint.
    pub fn groups(&self) -> (r: Vec<Group>)
        ensures
            r@.map_values(|g: Group| g@) == all_groups(directed_view(self.constraints@)),
    {
        let ghost cv = directed_view(self.constraints@);
        let mut r: Vec<Group> = Vec::new();
        let mut k: usize = 0;
        assert(cv.subrange(0, 0) =~= Seq::<(Seq<Label>, Seq<Seq<PartV>>)>::empty());
        while k < self.constraints.len()
            invariant
                k <= cv.len(),
                cv == directed_view(self.constraints@),
                r@.map_values(|g: Group| g@) == all_groups(cv.subrange(0, k as int)),
            decreases cv.len() - k,
        {
            let gs = self.constraints[k].1.groups();
            let ghost before = r@.map_values(|g: Group| g@);
            let ghost gv = gs@.map_values(|g: Group| g@);
            let mut i: usize = 0;
            while i < gs.len()
                invariant
                    i <= gs@.len(),
                    gv == gs@.map_values(|g: Group| g@),
                    r@.map_values(|g: Group| g@) == before + gv.subrange(0, i as int),
                decreases gs@.len() - i,
            {
                let ghost rv = r@;
                let g = gs[i].duplicate();
                r.push(g);
                i += 1;
                assert(r@.map_values(|g: Group| g@) =~= rv.map_values(|g: Group| g@).push(g@));
                assert(r@.map_values(|g: Group| g@) =~= before + gv.subrange(0, i as int));
            }
            proof {
                assert(gv.subrange(0, gv.len() as int) =~= gv);
                assert(cv.subrange(0, k + 1).drop_last() =~= cv.subrange(0, k as int));
                assert(cv.subrange(0, k + 1).last() == cv[k as int]);
            }
            k += 1;
        }
        assert(cv.subrange(0, cv.len() as int) =~= cv);
        r
    }

    /// One step of round elimination: the problem is maximized, the new
    /// labels are the groups with all their nonempty intersections, numbered
    /// in order of their last labels; each predecessor becomes the new
    /// labels that hold it, and each group of a constraint the new labels
    /// whose labels it holds all.
    #[verifier::spinoff_prover]
    #[verifier::rlimit(50)]
    pub fn speedup(&self) -> (r: DirectedProblem)
        requires
            self.wf(),
            self.constraints@.len() > 0,
        ensures
            r.wf(),
            exists|m: Seq<(Group, Constraint)>, names: Vec<Vec<Label>>| #[trigger] speedup_result(*self, m, names, r),
            r.mapping_label_oldlabels matches Some(v) && label_texts_view(r.mapping_label_text@) == names_of(named_labels_of_sets(v@)),
            r.mapping_oldlabel_labels is None,
            r.mapping_oldlabel_text matches Some(t) && t@ == self.mapping_label_text@,
    {
        let d = self.constraints[0].1.degree;
        let mut p = DirectedProblem {
            constraints: copy_constraints(&self.constraints),
            mapping_label_text: copy_label_texts(&self.mapping_label_text),
            mapping_label_oldlabels: None,
            mapping_oldlabel_labels: None,
            mapping_oldlabel_text: None,
        };
        assert(directed_view(p.constraints@) == directed_view(self.constraints@));
        assert(p.constraints@[0].1.degree == d);
        assert(p.wf()) by {
            assert forall|k: int| 0 <= k < p.constraints@.len() implies (#[trigger] p.constraints@[k]).0.wf()
                && p.constraints@[k].1.wf() && p.constraints@[k].1.degree == p.constraints@[0].1.degree by {
                assert(self.constraints@[k].0.wf() && self.constraints@[k].1.wf());
            }
        }
        assert(named_labels(p.mapping_label_text@) == named_labels(self.mapping_label_text@));
        p.maximize();
        let ghost m = p.constraints@;
        let gs = p.groups();
        proof {
            lemma_all_groups_sorted(m);
            assert forall|q: int| 0 <= q < gs@.len() implies (#[trigger] gs@[q]).wf() by {
                assert(gs@.map_values(|g: Group| g@)[q] == gs@[q]@);
            }
        }
        let names = closure_names(&gs);
        let ghost nv = vecs_view(names@);
        let sets = numbered_label_sets(&names);
        proof {
            let lab = choose|lab: Seq<Label>| #![trigger lab.filter(has_lines(directed_view(self.constraints@)))] {
                &&& sorted_labels(lab)
                &&& lab.to_multiset() == named_labels(self.mapping_label_text@).to_multiset()
                &&& m.len() == lab.filter(has_lines(directed_view(self.constraints@))).len()
                &&& forall|q: int| 0 <= q < m.len() ==> {
                    &&& (#[trigger] m[q]).0@ == seq![lab.filter(has_lines(directed_view(self.constraints@)))[q]]
                    &&& m[q].1.wf()
                    &&& m[q].1.degree == d
                    &&& m[q].1.is_maximized
                    &&& forall|x: int| 0 <= x < m[q].1@.len() ==> no_zero(#[trigger] m[q].1@[x])
                }
            };
            assert forall|q: int| 0 <= q < m.len() implies (#[trigger] m[q]).0@.len() > 0 && m[q].1.wf() && m[q].1.degree == d by {
                assert(m[q].0@ == seq![lab.filter(has_lines(directed_view(self.constraints@)))[q]]);
            }
        }
        let newc = speedup_constraints(&p.constraints, &names, d);
        let mut r = DirectedProblem {
            constraints: newc,
            mapping_label_text: Vec::new(),
            mapping_label_oldlabels: Some(sets),
            mapping_oldlabel_labels: None,
            mapping_oldlabel_text: Some(copy_label_texts(&self.mapping_label_text)),
        };
        proof {
            let v = r.mapping_label_oldlabels->Some_0;
            if v@.len() <= 62 {
                assert forall|k: int| 0 <= k < v@.len() implies #[trigger] v@[k].0 <= 194 by {
                    assert(label_sets_view(v@).len() == v@.len());
                    assert(numbered_sets(nv).len() == nv.len());
                    assert(label_sets_view(v@)[k].0 == v@[k].0);
                    assert(numbered_sets(nv)[k].0 == k as Label);
                    assert(label_sets_view(v@)[k] == numbered_sets(nv)[k]);
                }
            }
        }
        assert(r.wf()) by {
            assert forall|k: int| 0 <= k < r.constraints@.len() implies (#[trigger] r.constraints@[k]).0.wf()
                && r.constraints@[k].1.wf() && r.constraints@[k].1.degree == r.constraints@[0].1.degree by {
            }
        }
        assert(speedup_result(*self, m, names, r));
        r.assign_chars();
        assert(speedup_result(*self, m, names, r));
        r
    }
}

} // verus!
