use vstd::prelude::*;

use crate::group::{strictly_sorted, Group, GroupType, Label};
use crate::line::{
    absorbed, count_of, degree_without_star_spec, has_star_spec, lemma_count_le_degree,
    lemma_count_prefix, normalized_from, parts_wf, star_labels, Line, PartV,
};
use crate::order::{parts_view, sort_parts};
use crate::part::Part;

verus! {

/// `es` accumulates the parts without a star of `ps`: one entry per distinct
/// group, holding the total exponent of that group.
pub open spec fn entries_inv(es: Seq<PartV>, ps: Seq<PartV>) -> bool {
    &&& forall|k: int| 0 <= k < es.len() ==> (#[trigger] es[k]).0 != GroupType::Star
    &&& forall|k: int| 0 <= k < es.len() ==> strictly_sorted(#[trigger] es[k].1)
    &&& forall|k: int| 0 <= k < es.len() ==> (#[trigger] es[k]).0 == GroupType::Many(count_of(ps, es[k].1) as u8)
    &&& forall|k: int| 0 <= k < es.len() ==> in_many_groups(ps, (#[trigger] es[k]).1)
    &&& forall|a: int, b: int| 0 <= a < b < es.len() ==> es[a].1 != es[b].1
    &&& forall|j: int| 0 <= j < ps.len() && (#[trigger] ps[j]).0 != GroupType::Star ==> in_groups(es, ps[j].1)
}

/// Some part without a star of `ps` has group `g`.
pub open spec fn in_many_groups(ps: Seq<PartV>, g: Seq<Label>) -> bool {
    exists|j: int| 0 <= j < ps.len() && (#[trigger] ps[j]).0 != GroupType::Star && ps[j].1 == g
}

/// Some part of `es` has group `g`.
pub open spec fn in_groups(es: Seq<PartV>, g: Seq<Label>) -> bool {
    exists|k: int| 0 <= k < es.len() && (#[trigger] es[k]).1 == g
}

proof fn lemma_count_push(ps: Seq<PartV>, p: PartV, g: Seq<Label>)
    ensures
        count_of(ps.push(p), g) == count_of(ps, g) + match p.0 {
            GroupType::Many(n) => if p.1 == g { n as nat } else { 0 },
            GroupType::Star => 0,
        },
{
    assert(ps.push(p).drop_last() =~= ps);
}

proof fn lemma_in_many_push(ps: Seq<PartV>, p: PartV, g: Seq<Label>)
    requires
        in_many_groups(ps, g),
    ensures
        in_many_groups(ps.push(p), g),
{
    let j = choose|j: int| 0 <= j < ps.len() && (#[trigger] ps[j]).0 != GroupType::Star && ps[j].1 == g;
    assert(ps.push(p)[j] == ps[j]);
}

proof fn lemma_entries_star_step(es: Seq<PartV>, ps: Seq<PartV>, p: PartV)
    requires
        entries_inv(es, ps),
        p.0 == GroupType::Star,
    ensures
        entries_inv(es, ps.push(p)),
{
    let qs = ps.push(p);
    assert forall|k: int| 0 <= k < es.len() implies (#[trigger] es[k]).0 == GroupType::Many(count_of(qs, es[k].1) as u8) by {
        lemma_count_push(ps, p, es[k].1);
    }
    assert forall|k: int| 0 <= k < es.len() implies in_many_groups(qs, (#[trigger] es[k]).1) by {
        lemma_in_many_push(ps, p, es[k].1);
    }
    assert forall|j: int| 0 <= j < qs.len() && (#[trigger] qs[j]).0 != GroupType::Star implies in_groups(es, qs[j].1) by {
        assert(j < ps.len());
        assert(qs[j] == ps[j]);
    }
}

proof fn lemma_entries_add_step(es: Seq<PartV>, ps: Seq<PartV>, p: PartV, k: int, total: u8)
    requires
        entries_inv(es, ps),
        p.0 != GroupType::Star,
        0 <= k < es.len(),
        es[k].1 == p.1,
        total as nat == count_of(ps.push(p), p.1),
    ensures
        entries_inv(es.update(k, (GroupType::Many(total), p.1)), ps.push(p)),
{
    let qs = ps.push(p);
    let fs = es.update(k, (GroupType::Many(total), p.1));
    assert forall|q: int| 0 <= q < fs.len() implies (#[trigger] fs[q]).0 == GroupType::Many(count_of(qs, fs[q].1) as u8) by {
        lemma_count_push(ps, p, fs[q].1);
        if q != k {
            assert(es[q].1 != es[k].1);
        }
    }
    assert forall|q: int| 0 <= q < fs.len() implies in_many_groups(qs, (#[trigger] fs[q]).1) by {
        lemma_in_many_push(ps, p, es[q].1);
    }
    assert forall|j: int| 0 <= j < qs.len() && (#[trigger] qs[j]).0 != GroupType::Star implies in_groups(fs, qs[j].1) by {
        if j < ps.len() {
            assert(qs[j] == ps[j]);
            let q = choose|q: int| 0 <= q < es.len() && (#[trigger] es[q]).1 == ps[j].1;
            assert(fs[q].1 == ps[j].1);
        } else {
            assert(fs[k].1 == qs[j].1);
        }
    }
}

proof fn lemma_entries_new_step(es: Seq<PartV>, ps: Seq<PartV>, p: PartV)
    requires
        entries_inv(es, ps),
        p.0 != GroupType::Star,
        strictly_sorted(p.1),
        !in_groups(es, p.1),
    ensures
        count_of(ps, p.1) == 0,
        entries_inv(es.push(p), ps.push(p)),
{
    let qs = ps.push(p);
    let fs = es.push(p);
    lemma_count_zero(ps, p.1);
    assert forall|q: int| 0 <= q < fs.len() implies (#[trigger] fs[q]).0 == GroupType::Many(count_of(qs, fs[q].1) as u8) by {
        lemma_count_push(ps, p, fs[q].1);
        if q < es.len() {
            assert(fs[q] == es[q]);
            assert(es[q].1 != p.1);
        }
    }
    assert forall|q: int| 0 <= q < fs.len() implies in_many_groups(qs, (#[trigger] fs[q]).1) by {
        if q < es.len() {
            assert(fs[q] == es[q]);
            lemma_in_many_push(ps, p, es[q].1);
        } else {
            assert(qs[ps.len() as int] == p);
        }
    }
    assert forall|a: int, b: int| 0 <= a < b < fs.len() implies fs[a].1 != fs[b].1 by {
        if b == es.len() {
            assert(fs[a] == es[a]);
        }
    }
    assert forall|j: int| 0 <= j < qs.len() && (#[trigger] qs[j]).0 != GroupType::Star implies in_groups(fs, qs[j].1) by {
        if j < ps.len() {
            assert(qs[j] == ps[j]);
            let q = choose|q: int| 0 <= q < es.len() && (#[trigger] es[q]).1 == ps[j].1;
            assert(fs[q] == es[q]);
        } else {
            assert(fs[es.len() as int] == p);
        }
    }
}

/// The exponents of a concatenation add up.
pub proof fn lemma_degree_concat(a: Seq<PartV>, b: Seq<PartV>)
    ensures
        degree_without_star_spec(a + b) == degree_without_star_spec(a) + degree_without_star_spec(b),
    decreases b.len(),
{
    if b.len() == 0 {
        assert(a + b =~= a);
    } else {
        lemma_degree_concat(a, b.drop_last());
        assert((a + b).drop_last() =~= a + b.drop_last());
        assert((a + b).last() == b.last());
    }
}

/// The exponent of one element of a single-element sequence.
pub open spec fn exponent_of(p: PartV) -> nat {
    match p.0 {
        GroupType::Many(n) => n as nat,
        GroupType::Star => 0,
    }
}

pub proof fn lemma_degree_single(p: PartV)
    ensures
        degree_without_star_spec(seq![p]) == exponent_of(p),
{
    assert(seq![p].drop_last() =~= Seq::<PartV>::empty());
    assert(degree_without_star_spec(Seq::<PartV>::empty()) == 0);
    assert(seq![p].last() == p);
}

/// Replacing one element changes the sum by the difference of the exponents.
pub proof fn lemma_degree_update(s: Seq<PartV>, k: int, x: PartV)
    requires
        0 <= k < s.len(),
    ensures
        degree_without_star_spec(s.update(k, x)) + exponent_of(s[k]) == degree_without_star_spec(s) + exponent_of(x),
{
    let a = s.subrange(0, k);
    let b = s.subrange(k + 1, s.len() as int);
    assert(s =~= a + seq![s[k]] + b);
    assert(s.update(k, x) =~= a + seq![x] + b);
    lemma_degree_concat(a + seq![s[k]], b);
    lemma_degree_concat(a, seq![s[k]]);
    lemma_degree_concat(a + seq![x], b);
    lemma_degree_concat(a, seq![x]);
    lemma_degree_single(s[k]);
    lemma_degree_single(x);
}

/// Inserting an element adds its exponent to the sum.
pub proof fn lemma_degree_insert(s: Seq<PartV>, k: int, x: PartV)
    requires
        0 <= k <= s.len(),
    ensures
        degree_without_star_spec(s.insert(k, x)) == degree_without_star_spec(s) + exponent_of(x),
{
    let a = s.subrange(0, k);
    let b = s.subrange(k, s.len() as int);
    assert(s =~= a + b);
    assert(s.insert(k, x) =~= a + seq![x] + b);
    lemma_degree_concat(a + seq![x], b);
    lemma_degree_concat(a, seq![x]);
    lemma_degree_concat(a, b);
    lemma_degree_single(x);
}

/// Two strictly increasing sequences with the same elements are equal.
pub proof fn lemma_sorted_same_set(a: Seq<Label>, b: Seq<Label>)
    requires
        strictly_sorted(a),
        strictly_sorted(b),
        a.to_set() == b.to_set(),
    ensures
        a == b,
    decreases a.len(),
{
    if a.len() == 0 {
        if b.len() > 0 {
            assert(b.to_set().contains(b[0]));
        }
        assert(a =~= b);
    } else if b.len() == 0 {
        assert(a.to_set().contains(a[0]));
    } else {
        // the least elements agree
        assert(b.to_set().contains(a[0]));
        assert(a.to_set().contains(b[0]));
        let i = choose|i: int| 0 <= i < b.len() && b[i] == a[0];
        let j = choose|j: int| 0 <= j < a.len() && a[j] == b[0];
        if i > 0 { assert(b[0] < b[i]); if j > 0 { assert(a[0] < a[j]); } }
        if j > 0 { assert(a[0] < a[j]); }
        assert(a[0] == b[0]);
        let a1 = a.drop_first();
        let b1 = b.drop_first();
        assert forall|x: Label| a1.to_set().contains(x) <==> b1.to_set().contains(x) by {
            if a1.contains(x) {
                let k = choose|k: int| 0 <= k < a1.len() && a1[k] == x;
                assert(a[k + 1] == x);
                assert(a.to_set().contains(x));
                assert(b.contains(x));
                let m = choose|m: int| 0 <= m < b.len() && b[m] == x;
                assert(a[0] < a[k + 1]);
                if m == 0 { assert(false); }
                assert(b1[m - 1] == x);
            }
            if b1.contains(x) {
                let k = choose|k: int| 0 <= k < b1.len() && b1[k] == x;
                assert(b[k + 1] == x);
                assert(b.to_set().contains(x));
                assert(a.contains(x));
                let m = choose|m: int| 0 <= m < a.len() && a[m] == x;
                assert(b[0] < b[k + 1]);
                if m == 0 { assert(false); }
                assert(a1[m - 1] == x);
            }
        }
        assert(a1.to_set() =~= b1.to_set());
        lemma_sorted_same_set(a1, b1);
        assert(a =~= seq![a[0]] + a1);
        assert(b =~= seq![b[0]] + b1);
    }
}

/// Without a starred part there are no starred labels.
pub proof fn lemma_no_star_labels(ps: Seq<PartV>)
    requires
        !has_star_spec(ps),
    ensures
        star_labels(ps) == Set::<Label>::empty(),
    decreases ps.len(),
{
    if ps.len() > 0 {
        let q = ps.drop_last();
        assert(!has_star_spec(q)) by {
            if has_star_spec(q) {
                let k = choose|k: int| 0 <= k < q.len() && (#[trigger] q[k]).0 == GroupType::Star;
                assert(ps[k] == q[k]);
            }
        }
        lemma_no_star_labels(q);
        assert(ps[ps.len() - 1].0 != GroupType::Star);
        assert(star_labels(ps) =~= Set::<Label>::empty());
    }
}

/// A group that no entry holds has total exponent zero.
pub proof fn lemma_count_zero(ps: Seq<PartV>, g: Seq<Label>)
    requires
        forall|j: int| 0 <= j < ps.len() && (#[trigger] ps[j]).0 != GroupType::Star ==> ps[j].1 != g,
    ensures
        count_of(ps, g) == 0,
    decreases ps.len(),
{
    if ps.len() > 0 {
        let q = ps.drop_last();
        assert forall|j: int| 0 <= j < q.len() && (#[trigger] q[j]).0 != GroupType::Star implies q[j].1 != g by {
            assert(q[j] == ps[j]);
        }
        lemma_count_zero(q, g);
        assert(ps.last() == ps[ps.len() - 1]);
    }
}

/// A group of positive total exponent is the group of some part without a star.
pub proof fn lemma_count_positive(ps: Seq<PartV>, g: Seq<Label>)
    requires
        count_of(ps, g) > 0,
    ensures
        in_many_groups(ps, g),
{
    if !in_many_groups(ps, g) {
        assert forall|j: int| 0 <= j < ps.len() && (#[trigger] ps[j]).0 != GroupType::Star implies ps[j].1 != g by {
        }
        lemma_count_zero(ps, g);
    }
}

/// Adds up the parts without a star, and gathers the labels of the starred
/// parts.
fn accumulate(parts: &Vec<Part>) -> (r: (Option<Group>, Vec<Part>))
    requires
        parts_wf(parts_view(parts@)),
    ensures
        entries_inv(parts_view(r.1@), parts_view(parts@)),
        degree_without_star_spec(parts_view(r.1@)) == degree_without_star_spec(parts_view(parts@)),
        r.1@.len() <= parts@.len(),
        r.0 is Some ==> r.1@.len() < parts@.len(),
        match r.0 {
            Some(g) => g.wf() && g.labels() == star_labels(parts_view(parts@)) && has_star_spec(parts_view(parts@)),
            None => !has_star_spec(parts_view(parts@)),
        },
{
    let ghost ps = parts_view(parts@);
    let mut star: Option<Group> = None;
    let mut entries: Vec<Part> = Vec::new();
    let mut i: usize = 0;
    proof {
        assert(ps.subrange(0, 0) =~= Seq::<PartV>::empty());
    }
    while i < parts.len()
        invariant
            ps == parts_view(parts@),
            parts_wf(ps),
            i <= ps.len(),
            entries_inv(parts_view(entries@), ps.subrange(0, i as int)),
            degree_without_star_spec(parts_view(entries@)) == degree_without_star_spec(ps.subrange(0, i as int)),
            entries@.len() <= i,
            star is Some ==> entries@.len() < i,
            match star {
                Some(g) => g.wf() && g.labels() == star_labels(ps.subrange(0, i as int)) && has_star_spec(ps.subrange(0, i as int)),
                None => !has_star_spec(ps.subrange(0, i as int)),
            },
        decreases ps.len() - i,
    {
        let ghost pre = ps.subrange(0, i as int);
        let ghost p = ps[i as int];
        proof {
            assert(ps.subrange(0, i + 1) =~= pre.push(p));
            assert(pre.push(p).drop_last() =~= pre);
            crate::line::lemma_has_star_push(pre, p);
        }
        let ghost es = parts_view(entries@);
        match parts[i].gtype {
            GroupType::Star => {
                let g = match &star {
                    Some(sg) => sg.union(&parts[i].group),
                    None => parts[i].group.union(&parts[i].group),
                };
                star = Some(g);
                proof {
                    lemma_entries_star_step(es, pre, p);
                    if !has_star_spec(pre) {
                        lemma_no_star_labels(pre);
                    }
                    assert(g.labels() =~= star_labels(pre.push(p)));
                }
            },
            GroupType::Many(a) => {
                let mut k: usize = 0;
                while k < entries.len() && !entries[k].group.same_as(&parts[i].group)
                    invariant
                        k <= entries@.len(),
                        es == parts_view(entries@),
                        i < parts@.len(),
                        p == parts[i as int]@,
                        forall|q: int| 0 <= q < k ==> es[q].1 != p.1,
                    decreases entries@.len() - k,
                {
                    k += 1;
                }
                proof {
                    lemma_count_push(pre, p, p.1);
                    lemma_count_prefix(ps, i + 1, p.1);
                    lemma_count_prefix(ps, i as int, p.1);
                    lemma_count_le_degree(ps, p.1);
                    assert(ps.subrange(0, i + 1) == pre.push(p));
                }
                if k < entries.len() {
                    assert(es[k as int].1 == p.1);
                    assert(es[k as int].0 == GroupType::Many(count_of(pre, p.1) as u8));
                    let e = match entries[k].gtype {
                        GroupType::Many(e) => e,
                        GroupType::Star => 0,
                    };
                    let np = Part { gtype: GroupType::Many(e + a), group: entries[k].group.duplicate() };
                    entries.set(k, np);
                    proof {
                        lemma_entries_add_step(es, pre, p, k as int, (e + a) as u8);
                        assert(parts_view(entries@) =~= es.update(k as int, (GroupType::Many((e + a) as u8), p.1)));
                        lemma_degree_update(es, k as int, (GroupType::Many((e + a) as u8), p.1));
                    }
                } else {
                    let np = Part { gtype: GroupType::Many(a), group: parts[i].group.duplicate() };
                    entries.push(np);
                    proof {
                        assert(!in_groups(es, p.1)) by {
                            if in_groups(es, p.1) {
                                let q = choose|q: int| 0 <= q < es.len() && (#[trigger] es[q]).1 == p.1;
                            }
                        }
                        lemma_entries_new_step(es, pre, p);
                        assert(parts_view(entries@) =~= es.push(p));
                        assert(es.push(p).drop_last() =~= es);
                    }
                }
            },
        }
        i += 1;
    }
    assert(ps.subrange(0, ps.len() as int) =~= ps);
    (star, entries)
}

/// Puts the starred part among the entries: it replaces the entry with the
/// same group, if there is one.
fn place_star(entries: &mut Vec<Part>, sg: Group)
    requires
        sg.wf(),
        forall|a: int, b: int| 0 <= a < b < old(entries)@.len() ==> old(entries)@[a].group@ != old(entries)@[b].group@,
        forall|k: int| 0 <= k < old(entries)@.len() ==> (#[trigger] old(entries)@[k]).gtype != GroupType::Star,
    ensures
        forall|a: int, b: int| 0 <= a < b < final(entries)@.len() ==> final(entries)@[a].group@ != final(entries)@[b].group@,
        forall|k: int| 0 <= k < final(entries)@.len() ==> ((#[trigger] final(entries)@[k]).gtype == GroupType::Star <==> final(entries)@[k].group@ == sg@),
        parts_view(final(entries)@).contains((GroupType::Star, sg@)),
        forall|k: int| 0 <= k < final(entries)@.len() && (#[trigger] final(entries)@[k]).gtype != GroupType::Star ==> parts_view(old(entries)@).contains(final(entries)@[k]@),
        forall|k: int| 0 <= k < old(entries)@.len() && (#[trigger] old(entries)@[k]).group@ != sg@ ==> parts_view(final(entries)@).contains(old(entries)@[k]@),
        final(entries)@.len() <= old(entries)@.len() + 1,
        degree_without_star_spec(parts_view(final(entries)@)) <= degree_without_star_spec(parts_view(old(entries)@)),
{
    let ghost old_e = entries@;
    let ghost ov = parts_view(old_e);
    let mut k: usize = 0;
    while k < entries.len() && !entries[k].group.same_as(&sg)
        invariant
            k <= entries@.len(),
            entries@ == old_e,
            forall|q: int| 0 <= q < k ==> entries@[q].group@ != sg@,
        decreases entries@.len() - k,
    {
        k += 1;
    }
    let np = Part { gtype: GroupType::Star, group: sg };
    if k < entries.len() {
        entries.set(k, np);
        proof {
            let nv = parts_view(entries@);
            lemma_degree_update(ov, k as int, np@);
            assert(nv =~= ov.update(k as int, np@));
            assert(nv[k as int] == (GroupType::Star, sg@));
            assert forall|q: int| 0 <= q < old_e.len() && (#[trigger] old_e[q]).group@ != sg@ implies nv.contains(old_e[q]@) by {
                assert(nv[q] == ov[q]);
            }
            assert forall|q: int| 0 <= q < entries@.len() && (#[trigger] entries@[q]).gtype != GroupType::Star implies ov.contains(entries@[q]@) by {
                assert(entries@[q] == old_e[q]);
                assert(ov[q] == old_e[q]@);
            }
        }
    } else {
        entries.push(np);
        proof {
            let nv = parts_view(entries@);
            assert(nv =~= ov.push(np@));
            assert(ov.push(np@).drop_last() =~= ov);
            assert(nv[old_e.len() as int] == (GroupType::Star, sg@));
            assert forall|q: int| 0 <= q < old_e.len() && (#[trigger] old_e[q]).group@ != sg@ implies nv.contains(old_e[q]@) by {
                assert(nv[q] == ov[q]);
            }
            assert forall|q: int| 0 <= q < entries@.len() && (#[trigger] entries@[q]).gtype != GroupType::Star implies ov.contains(entries@[q]@) by {
                assert(entries@[q] == old_e[q]);
                assert(ov[q] == old_e[q]@);
            }
        }
    }
}

/// Keeps the parts whose exponent is not zero.
fn drop_zeros(entries: &Vec<Part>) -> (r: Vec<Part>)
    requires
        forall|a: int, b: int| 0 <= a < b < entries@.len() ==> entries@[a].group@ != entries@[b].group@,
    ensures
        forall|k: int| 0 <= k < r@.len() ==> parts_view(entries@).contains(#[trigger] r@[k]@),
        forall|k: int| 0 <= k < r@.len() ==> (#[trigger] r@[k]).gtype != GroupType::Many(0),
        forall|k: int| 0 <= k < entries@.len() && (#[trigger] entries@[k]).gtype != GroupType::Many(0) ==> parts_view(r@).contains(entries@[k]@),
        forall|a: int, b: int| 0 <= a < b < r@.len() ==> r@[a].group@ != r@[b].group@,
        r@.len() <= entries@.len(),
        degree_without_star_spec(parts_view(r@)) == degree_without_star_spec(parts_view(entries@)),
{
    let ghost ev = parts_view(entries@);
    let mut r: Vec<Part> = Vec::new();
    let mut i: usize = 0;
    let ghost mut idx: Seq<int> = Seq::empty();
    while i < entries.len()
        invariant
            ev == parts_view(entries@),
            forall|a: int, b: int| 0 <= a < b < entries@.len() ==> entries@[a].group@ != entries@[b].group@,
            i <= entries@.len(),
            r@.len() == idx.len(),
            r@.len() <= i,
            forall|k: int| 0 <= k < r@.len() ==> 0 <= #[trigger] idx[k] < i && r@[k]@ == ev[idx[k]],
            forall|a: int, b: int| 0 <= a < b < idx.len() ==> idx[a] < idx[b],
            forall|k: int| 0 <= k < r@.len() ==> (#[trigger] r@[k]).gtype != GroupType::Many(0),
            forall|k: int| 0 <= k < i && (#[trigger] entries@[k]).gtype != GroupType::Many(0) ==> parts_view(r@).contains(entries@[k]@),
            degree_without_star_spec(parts_view(r@)) == degree_without_star_spec(ev.subrange(0, i as int)),
        decreases entries@.len() - i,
    {
        let ghost old_r = r@;
        proof {
            assert(ev.subrange(0, i + 1).drop_last() =~= ev.subrange(0, i as int));
        }
        if entries[i].gtype != GroupType::Many(0) {
            r.push(entries[i].duplicate());
            proof {
                idx = idx.push(i as int);
                assert(parts_view(r@).drop_last() =~= parts_view(old_r));
                assert forall|k: int| 0 <= k < i + 1 && (#[trigger] entries@[k]).gtype != GroupType::Many(0) implies parts_view(r@).contains(entries@[k]@) by {
                    if k < i {
                        let q = choose|q: int| 0 <= q < old_r.len() && parts_view(old_r)[q] == entries@[k]@;
                        assert(parts_view(r@)[q] == entries@[k]@);
                    } else {
                        assert(parts_view(r@)[old_r.len() as int] == entries@[k]@);
                    }
                }
                assert forall|k: int| 0 <= k < r@.len() implies 0 <= #[trigger] idx[k] < i + 1 && r@[k]@ == ev[idx[k]] by {
                    if k < old_r.len() {
                        assert(r@[k] == old_r[k]);
                    }
                }
            }
        } else {
            assert(ev.subrange(0, i + 1).last().0 == GroupType::Many(0));
        }
        i += 1;
    }
    assert(ev.subrange(0, ev.len() as int) =~= ev);
    proof {
        assert forall|k: int| 0 <= k < r@.len() implies parts_view(entries@).contains(#[trigger] r@[k]@) by {
            assert(ev[idx[k]] == r@[k]@);
        }
        assert forall|a: int, b: int| 0 <= a < b < r@.len() implies r@[a].group@ != r@[b].group@ by {
            assert(r@[a]@ == ev[idx[a]]);
            assert(r@[b]@ == ev[idx[b]]);
            assert(entries@[idx[a]].group@ != entries@[idx[b]].group@);
        }
    }
    r
}

impl Line {
    /// Brings the line into normal form: all starred groups merge into one
    /// starred group holding all their labels; parts with equal groups add up
    /// their exponents; a starred group absorbs an equal group; parts of
    /// exponent zero go; the parts are sorted.
    #[verifier::rlimit(40)]
    pub fn normalize(&mut self)
        requires
            old(self).wf(),
        ensures
            final(self).wf(),
            normalized_from(final(self)@, old(self)@),
            degree_without_star_spec(final(self)@) <= degree_without_star_spec(old(self)@),
            !has_star_spec(old(self)@) ==> degree_without_star_spec(final(self)@) == degree_without_star_spec(old(self)@),
            crate::line::degree_spec(final(self)@) == crate::line::degree_spec(old(self)@),
    {
        let ghost ps = self@;
        let (star, mut entries) = accumulate(&self.parts);
        let ghost es = entries@;
        proof {
            assert forall|a: int, b: int| 0 <= a < b < entries@.len() implies entries@[a].group@ != entries@[b].group@ by {
                assert(parts_view(es)[a].1 != parts_view(es)[b].1);
            }
            assert forall|k: int| 0 <= k < entries@.len() implies (#[trigger] entries@[k]).gtype != GroupType::Star by {
                assert(parts_view(es)[k].0 != GroupType::Star);
            }
        }
        let ghost gstar = star;
        match star {
            Some(sg) => {
                place_star(&mut entries, sg);
            },
            None => {},
        }
        let ghost es2 = entries@;
        let f = drop_zeros(&entries);
        proof {
            assert(parts_view(f@).no_duplicates()) by {
                assert forall|a: int, b: int| 0 <= a < f@.len() && 0 <= b < f@.len() && a != b implies parts_view(f@)[a] != parts_view(f@)[b] by {
                    if a < b {
                        assert(f@[a].group@ != f@[b].group@);
                    } else {
                        assert(f@[b].group@ != f@[a].group@);
                    }
                }
            }
        }
        let r = sort_parts(&f);
        proof {
            if gstar is None {
                assert(es2 == es);
            }
        }
        let ghost rv = parts_view(r@);
        let ghost fv = parts_view(f@);
        let ghost esv = parts_view(es);
        let ghost es2v = parts_view(es2);
        proof {
            broadcast use vstd::seq_lib::group_to_multiset_ensures;
            // every element of the result comes from the entries
            assert forall|i: int| 0 <= i < rv.len() implies #[trigger] fv.contains(rv[i]) && rv[i].0 != GroupType::Many(0)
                && es2v.contains(rv[i]) by {
                assert(fv.contains(r@[i]@));
                let q = choose|q: int| 0 <= q < fv.len() && fv[q] == rv[i];
                assert(f@[q].gtype != GroupType::Many(0));
                assert(parts_view(entries@).contains(f@[q]@));
            }
            assert forall|i: int| 0 <= i < rv.len() implies strictly_sorted(#[trigger] rv[i].1) by {
                assert(es2v.contains(rv[i]));
                let q = choose|q: int| 0 <= q < es2v.len() && es2v[q] == rv[i];
                if rv[i].0 == GroupType::Star {
                    assert(gstar is Some);
                } else {
                    match gstar {
                        Some(sg) => {
                            assert(es2[q].gtype != GroupType::Star);
                            assert(esv.contains(es2[q]@));
                        },
                        None => {},
                    }
                    let w = choose|w: int| 0 <= w < esv.len() && esv[w] == rv[i];
                }
            }
            assert forall|i: int| 0 <= i < rv.len() && (#[trigger] rv[i]).0 == GroupType::Star implies rv[i].1.to_set() == star_labels(ps) by {
                let q = choose|q: int| 0 <= q < es2v.len() && es2v[q] == rv[i];
                match gstar {
                    Some(sg) => {
                        assert(es2[q].group@ == sg@);
                    },
                    None => {
                        assert(esv[q].0 != GroupType::Star);
                    },
                }
            }
            assert forall|i: int| 0 <= i < rv.len() && (#[trigger] rv[i]).0 != GroupType::Star implies {
                &&& rv[i].0 == GroupType::Many(count_of(ps, rv[i].1) as u8)
                &&& count_of(ps, rv[i].1) > 0
                &&& !absorbed(ps, rv[i].1)
            } by {
                let x = rv[i];
                let q = choose|q: int| 0 <= q < es2v.len() && es2v[q] == x;
                match gstar {
                    Some(sg) => {
                        assert(es2[q].gtype != GroupType::Star);
                        assert(esv.contains(es2[q]@));
                        assert(x.1 != sg@);
                        if absorbed(ps, x.1) {
                            let w = choose|w: int| 0 <= w < esv.len() && esv[w] == x;
                            lemma_sorted_same_set(x.1, sg@);
                        }
                    },
                    None => {},
                }
                let w = choose|w: int| 0 <= w < esv.len() && esv[w] == x;
                lemma_count_le_degree(ps, x.1);
            }
            assert forall|j: int| 0 <= j < ps.len() && (#[trigger] ps[j]).0 != GroupType::Star && count_of(ps, ps[j].1) > 0
                && !absorbed(ps, ps[j].1) implies rv.contains((GroupType::Many(count_of(ps, ps[j].1) as u8), ps[j].1)) by {
                let g = ps[j].1;
                let k = choose|k: int| 0 <= k < esv.len() && (#[trigger] esv[k]).1 == g;
                lemma_count_le_degree(ps, g);
                let x = esv[k];
                assert(x == (GroupType::Many(count_of(ps, g) as u8), g));
                match gstar {
                    Some(sg) => {
                        if es[k].group@ == sg@ {
                            assert(absorbed(ps, g));
                        }
                        assert(es2v.contains(x));
                    },
                    None => {
                        assert(es2[k]@ == x);
                    },
                }
                let q = choose|q: int| 0 <= q < es2v.len() && es2v[q] == x;
                assert(es2[q].gtype != GroupType::Many(0));
                assert(fv.contains(x));
                assert(fv.to_multiset().count(x) > 0);
            }
            // there is a starred part exactly when the original line had one
            match gstar {
                Some(sg) => {
                    assert(es2v.contains((GroupType::Star, sg@)));
                    let q = choose|q: int| 0 <= q < es2v.len() && es2v[q] == (GroupType::Star, sg@);
                    assert(es2[q].gtype != GroupType::Many(0));
                    assert(fv.contains((GroupType::Star, sg@)));
                    assert(rv.to_multiset().count((GroupType::Star, sg@)) > 0);
                    let i = choose|i: int| 0 <= i < rv.len() && rv[i] == (GroupType::Star, sg@);
                    assert(has_star_spec(rv));
                },
                None => {
                    if has_star_spec(rv) {
                        let i = choose|i: int| 0 <= i < rv.len() && (#[trigger] rv[i]).0 == GroupType::Star;
                        let q = choose|q: int| 0 <= q < es2v.len() && es2v[q] == rv[i];
                        assert(esv[q].0 != GroupType::Star);
                    }
                },
            }
        }
        self.parts = r;
    }
}

} // verus!
