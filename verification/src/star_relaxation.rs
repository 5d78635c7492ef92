use vstd::prelude::*;
use vstd::multiset::Multiset;

use crate::choices::vecs_view;
use crate::constraint::{add_line_spec, labels_spec, Constraint};
use crate::edit::sorted_of;
use crate::group::{copy_labels, Group, GroupType, Label};
use crate::line::{degree_spec, degree_without_star_spec, Degree, Line, PartV};
use crate::order::parts_view;
use crate::order::{labels_less, seq_lt};
use crate::part::Part;
use crate::sorting::sorted_labels;

verus! {

broadcast use {vstd::multiset::group_multiset_axioms, vstd::seq_lib::group_to_multiset_ensures};

/// `x` copies of label `l`.
pub open spec fn copies(l: Label, x: nat) -> Multiset<Label>
    decreases x,
{
    if x == 0 {
        Multiset::empty()
    } else {
        copies(l, (x - 1) as nat).insert(l)
    }
}

/// The configurations, as multisets of labels, obtained from the first `k`
/// parts of `ps` by taking one label of each group as many times as the part
/// occurs.
pub open spec fn prefix_configs(ps: Seq<PartV>, k: int) -> Set<Multiset<Label>>
    decreases k,
{
    if k <= 0 {
        set![Multiset::<Label>::empty()]
    } else {
        Set::new(|m: Multiset<Label>| exists|t: Multiset<Label>, l: Label|
            #[trigger] prefix_configs(ps, k - 1).contains(t) && #[trigger] ps[k - 1].1.contains(l)
            && m == t.add(copies(l, crate::normalize::exponent_of(ps[k - 1]))))
    }
}

/// The configurations of a line.
pub open spec fn line_configs(ps: Seq<PartV>) -> Set<Multiset<Label>> {
    prefix_configs(ps, ps.len() as int)
}

/// The configurations that some line of `ls` allows.
pub open spec fn config_set(ls: Seq<Seq<PartV>>) -> Set<Multiset<Label>> {
    Set::new(|m: Multiset<Label>| exists|k: int| 0 <= k < ls.len() && #[trigger] line_configs(ls[k]).contains(m))
}

/// The multisets of the entries of `v`.
pub open spec fn msets_of(v: Seq<Seq<Label>>) -> Set<Multiset<Label>> {
    Set::new(|m: Multiset<Label>| exists|i: int| 0 <= i < v.len() && #[trigger] v[i].to_multiset() == m)
}

/// Each entry is sorted, and no two entries are equal.
pub open spec fn distinct_configs(v: Seq<Seq<Label>>) -> bool {
    &&& forall|i: int| 0 <= i < v.len() ==> sorted_labels(#[trigger] v[i])
    &&& forall|i: int, j: int| 0 <= i < j < v.len() ==> #[trigger] v[i] != #[trigger] v[j]
}

/// Two sorted sequences with the same labels, repetitions counted, are equal.
pub proof fn lemma_sorted_same_multiset(a: Seq<Label>, b: Seq<Label>)
    requires
        sorted_labels(a),
        sorted_labels(b),
        a.to_multiset() == b.to_multiset(),
    ensures
        a == b,
{
    let leq = |x: Label, y: Label| x <= y;
    assert(vstd::relations::sorted_by(a, leq)) by {
        assert forall|i: int, j: int| 0 <= i < j < a.len() implies leq(a[i], a[j]) by {}
    }
    assert(vstd::relations::sorted_by(b, leq)) by {
        assert forall|i: int, j: int| 0 <= i < j < b.len() implies leq(b[i], b[j]) by {}
    }
    assert(vstd::relations::total_ordering(leq)) by {
        assert(vstd::relations::reflexive(leq));
        assert(vstd::relations::antisymmetric(leq));
        assert(vstd::relations::transitive(leq));
        assert(vstd::relations::strongly_connected(leq));
    }
    vstd::seq_lib::lemma_sorted_unique(a, b, leq);
}

/// `t` with `l` put at its place.
fn insert_one(t: &Vec<Label>, l: Label) -> (r: Vec<Label>)
    requires
        sorted_labels(t@),
    ensures
        sorted_labels(r@),
        r@.to_multiset() == t@.to_multiset().insert(l),
        r@.len() == t@.len() + 1,
{
    let mut k: usize = 0;
    while k < t.len() && t[k] <= l
        invariant
            k <= t@.len(),
            forall|q: int| 0 <= q < k ==> t@[q] <= l,
        decreases t@.len() - k,
    {
        k += 1;
    }
    let mut r = copy_labels(t);
    r.insert(k, l);
    proof {
        let a = t@.subrange(0, k as int);
        let b = t@.subrange(k as int, t@.len() as int);
        assert(t@ =~= a + b);
        assert(r@ =~= a.push(l) + b);
        vstd::seq_lib::lemma_multiset_commutative(a.push(l), b);
        vstd::seq_lib::lemma_multiset_commutative(a, b);
        assert forall|x: int, y: int| 0 <= x < y < r@.len() implies r@[x] <= r@[y] by {
            if k < t@.len() {
                assert(l < t@[k as int]);
            }
            if x < k && y > k {
                assert(r@[x] == t@[x] && r@[y] == t@[y - 1]);
                if y - 1 > x {
                    assert(t@[x] <= t@[y - 1]);
                }
            } else if x < k && y < k {
                assert(r@[x] == t@[x] && r@[y] == t@[y]);
            } else if x > k {
                assert(r@[x] == t@[x - 1] && r@[y] == t@[y - 1]);
            } else if x == k && y > k {
                assert(r@[y] == t@[y - 1]);
                if y - 1 > k {
                    assert(t@[k as int] <= t@[y - 1]);
                }
            }
        }
    }
    r
}

/// `t` with `x` copies of `l` put at their place.
fn insert_copies(t: &Vec<Label>, l: Label, x: u8) -> (r: Vec<Label>)
    requires
        sorted_labels(t@),
    ensures
        sorted_labels(r@),
        r@.to_multiset() == t@.to_multiset().add(copies(l, x as nat)),
        r@.len() == t@.len() + x,
{
    let mut r = copy_labels(t);
    let mut i: u8 = 0;
    while i < x
        invariant
            i <= x,
            sorted_labels(r@),
            r@.to_multiset() == t@.to_multiset().add(copies(l, i as nat)),
            r@.len() == t@.len() + i,
        decreases x - i,
    {
        r = insert_one(&r, l);
        i += 1;
        assert(r@.to_multiset() =~= t@.to_multiset().add(copies(l, i as nat)));
    }
    r
}

/// Adds the configuration `s` to `v` unless it is there.
fn add_config(v: &mut Vec<Vec<Label>>, s: Vec<Label>)
    requires
        distinct_configs(vecs_view(old(v)@)),
        sorted_labels(s@),
    ensures
        distinct_configs(vecs_view(final(v)@)),
        msets_of(vecs_view(final(v)@)) == msets_of(vecs_view(old(v)@)).insert(s@.to_multiset()),
        forall|q: int| 0 <= q < final(v)@.len() ==> vecs_view(old(v)@).contains(#[trigger] vecs_view(final(v)@)[q]) || vecs_view(final(v)@)[q] == s@,
{
    let ghost before = vecs_view(v@);
    let mut i: usize = 0;
    while i < v.len()
        invariant
            i <= v@.len(),
            before == vecs_view(v@),
            distinct_configs(before),
            forall|q: int| 0 <= q < i ==> before[q] != s@,
        decreases v@.len() - i,
    {
        if crate::group::labels_equal(&v[i], &s) {
            proof {
                assert(before[i as int] == s@);
                assert(msets_of(before).contains(s@.to_multiset()));
                assert(msets_of(before).insert(s@.to_multiset()) =~= msets_of(before));
                assert forall|q: int| 0 <= q < v@.len() implies before.contains(#[trigger] vecs_view(v@)[q]) by {
                    assert(before[q] == vecs_view(v@)[q]);
                }
            }
            return;
        }
        i += 1;
    }
    v.push(s);
    proof {
        let after = vecs_view(v@);
        assert(after =~= before.push(s@));
        assert forall|x: Multiset<Label>| msets_of(after).contains(x) <==> msets_of(before).insert(s@.to_multiset()).contains(x) by {
            if msets_of(after).contains(x) {
                let q = choose|q: int| 0 <= q < after.len() && #[trigger] after[q].to_multiset() == x;
                if q < before.len() {
                    assert(before[q] == after[q]);
                }
            }
            if msets_of(before).contains(x) {
                let q = choose|q: int| 0 <= q < before.len() && #[trigger] before[q].to_multiset() == x;
                assert(after[q] == before[q]);
            }
            if x == s@.to_multiset() {
                assert(after[before.len() as int] == s@);
            }
        }
        assert(msets_of(after) =~= msets_of(before).insert(s@.to_multiset()));
        assert forall|a: int, b: int| 0 <= a < b < after.len() implies #[trigger] after[a] != #[trigger] after[b] by {
            if b == before.len() {
                assert(after[a] == before[a]);
                assert(before[a] != s@);
            } else {
                assert(after[a] == before[a] && after[b] == before[b]);
            }
        }
        assert forall|q: int| 0 <= q < after.len() implies before.contains(#[trigger] after[q]) || after[q] == s@ by {
            if q < before.len() {
                assert(after[q] == before[q]);
            }
        }
    }
}

/// The configurations of a line, each once, as sorted sequences of the
/// degree of the line.
fn configs_of_line(line: &Line) -> (r: Vec<Vec<Label>>)
    requires
        line.wf(),
        !crate::line::has_star_spec(line@),
    ensures
        distinct_configs(vecs_view(r@)),
        msets_of(vecs_view(r@)) == line_configs(line@),
        forall|q: int| 0 <= q < r@.len() ==> (#[trigger] r@[q])@.len() == degree_without_star_spec(line@),
{
    let ghost ps = line@;
    let mut cur: Vec<Vec<Label>> = Vec::new();
    cur.push(Vec::new());
    proof {
        let cv = vecs_view(cur@);
        assert(cv[0] == Seq::<Label>::empty());
        assert(Seq::<Label>::empty().to_multiset() =~= Multiset::<Label>::empty());
        assert forall|x: Multiset<Label>| msets_of(cv).contains(x) <==> prefix_configs(ps, 0).contains(x) by {
            if msets_of(cv).contains(x) {
                let q = choose|q: int| 0 <= q < cv.len() && #[trigger] cv[q].to_multiset() == x;
                assert(q == 0);
            }
        }
        assert(msets_of(cv) =~= prefix_configs(ps, 0));
        assert(ps.subrange(0, 0) =~= Seq::<PartV>::empty());
    }
    let mut k: usize = 0;
    while k < line.parts.len()
        invariant
            k <= ps.len(),
            ps == line@,
            line.wf(),
            !crate::line::has_star_spec(ps),
            distinct_configs(vecs_view(cur@)),
            msets_of(vecs_view(cur@)) == prefix_configs(ps, k as int),
            forall|q: int| 0 <= q < cur@.len() ==> (#[trigger] cur@[q])@.len() == degree_without_star_spec(ps.subrange(0, k as int)),
        decreases ps.len() - k,
    {
        let part = &line.parts[k];
        let ghost pk = ps[k as int];
        assert(part@ == pk);
        let x: u8 = match part.gtype {
            GroupType::Many(e) => e,
            GroupType::Star => 0,
        };
        proof {
            if part.gtype == GroupType::Star {
                assert(ps[k as int].0 == GroupType::Star);
            }
            assert(x as nat == crate::normalize::exponent_of(pk));
            assert(ps.subrange(0, k + 1).drop_last() =~= ps.subrange(0, k as int));
            assert(ps.subrange(0, k + 1).last() == pk);
        }
        let g = &part.group;
        let ghost cv = vecs_view(cur@);
        let mut next: Vec<Vec<Label>> = Vec::new();
        let mut a: usize = 0;
        proof {
            assert(msets_of(vecs_view(next@)) =~= Set::<Multiset<Label>>::empty());
        }
        while a < cur.len()
            invariant
                a <= cur@.len(),
                cv == vecs_view(cur@),
                g@ == pk.1,
                distinct_configs(cv),
                distinct_configs(vecs_view(next@)),
                forall|q: int| 0 <= q < cur@.len() ==> (#[trigger] cur@[q])@.len() == degree_without_star_spec(ps.subrange(0, k as int)),
                forall|q: int| 0 <= q < next@.len() ==> (#[trigger] next@[q])@.len() == degree_without_star_spec(ps.subrange(0, k as int)) + x,
                msets_of(vecs_view(next@)) == Set::new(|m: Multiset<Label>| exists|q: int, l: Label|
                    0 <= q < a && #[trigger] pk.1.contains(l) && m == (#[trigger] cv[q]).to_multiset().add(copies(l, x as nat))),
            decreases cur@.len() - a,
        {
            let ghost start = msets_of(vecs_view(next@));
            let mut b: usize = 0;
            while b < g.0.len()
                invariant
                    b <= g@.len(),
                    a < cv.len(),
                    cv == vecs_view(cur@),
                    g@ == pk.1,
                    distinct_configs(cv),
                    distinct_configs(vecs_view(next@)),
                    forall|q: int| 0 <= q < cur@.len() ==> (#[trigger] cur@[q])@.len() == degree_without_star_spec(ps.subrange(0, k as int)),
                    forall|q: int| 0 <= q < next@.len() ==> (#[trigger] next@[q])@.len() == degree_without_star_spec(ps.subrange(0, k as int)) + x,
                    msets_of(vecs_view(next@)) == start.union(Set::new(|m: Multiset<Label>| exists|l: Label|
                        #[trigger] pk.1.subrange(0, b as int).contains(l) && m == cv[a as int].to_multiset().add(copies(l, x as nat)))),
                decreases g@.len() - b,
            {
                let l = g.0[b];
                assert(cur@[a as int]@ == cv[a as int]);
                let s = insert_copies(&cur[a], l, x);
                let ghost before = vecs_view(next@);
                add_config(&mut next, s);
                proof {
                    let sub0 = pk.1.subrange(0, b as int);
                    let sub1 = pk.1.subrange(0, b + 1);
                    let old_part = Set::new(|m: Multiset<Label>| exists|l2: Label|
                        #[trigger] pk.1.subrange(0, b as int).contains(l2) && m == cv[a as int].to_multiset().add(copies(l2, x as nat)));
                    let new_part = Set::new(|m: Multiset<Label>| exists|l2: Label|
                        #[trigger] pk.1.subrange(0, b + 1).contains(l2) && m == cv[a as int].to_multiset().add(copies(l2, x as nat)));
                    assert(sub1 =~= sub0.push(l));
                    assert(sub1[b as int] == l);
                    assert forall|m: Multiset<Label>| new_part.contains(m) <==> old_part.insert(cv[a as int].to_multiset().add(copies(l, x as nat))).contains(m) by {
                        if new_part.contains(m) {
                            let l2 = choose|l2: Label| #[trigger] pk.1.subrange(0, b + 1).contains(l2) && m == cv[a as int].to_multiset().add(copies(l2, x as nat));
                            if l2 != l {
                                let q = choose|q: int| 0 <= q < sub1.len() && sub1[q] == l2;
                                assert(q < b);
                                assert(sub0[q] == l2);
                                assert(sub0.contains(l2));
                            }
                        }
                        if old_part.contains(m) {
                            let l2 = choose|l2: Label| #[trigger] pk.1.subrange(0, b as int).contains(l2) && m == cv[a as int].to_multiset().add(copies(l2, x as nat));
                            let q = choose|q: int| 0 <= q < sub0.len() && sub0[q] == l2;
                            assert(sub1[q] == l2);
                            assert(sub1.contains(l2));
                        }
                        if m == cv[a as int].to_multiset().add(copies(l, x as nat)) {
                            assert(sub1.contains(l));
                        }
                    }
                    assert(new_part =~= old_part.insert(cv[a as int].to_multiset().add(copies(l, x as nat))));
                    assert(msets_of(vecs_view(next@)) =~= start.union(new_part));
                    assert forall|q: int| 0 <= q < next@.len() implies (#[trigger] next@[q])@.len() == degree_without_star_spec(ps.subrange(0, k as int)) + x by {
                        let nv = vecs_view(next@);
                        assert(nv[q] == next@[q]@);
                        if nv[q] != s@ {
                            let t = choose|t: int| 0 <= t < before.len() && before[t] == nv[q];
                        }
                    }
                }
                b += 1;
            }
            proof {
                assert(pk.1.subrange(0, pk.1.len() as int) =~= pk.1);
                let prev = Set::new(|m: Multiset<Label>| exists|q: int, l: Label|
                    0 <= q < a && #[trigger] pk.1.contains(l) && m == (#[trigger] cv[q]).to_multiset().add(copies(l, x as nat)));
                let now = Set::new(|m: Multiset<Label>| exists|q: int, l: Label|
                    0 <= q < a + 1 && #[trigger] pk.1.contains(l) && m == (#[trigger] cv[q]).to_multiset().add(copies(l, x as nat)));
                let row = Set::new(|m: Multiset<Label>| exists|l: Label|
                    #[trigger] pk.1.subrange(0, pk.1.len() as int).contains(l) && m == cv[a as int].to_multiset().add(copies(l, x as nat)));
                assert forall|m: Multiset<Label>| now.contains(m) <==> prev.union(row).contains(m) by {
                    if now.contains(m) {
                        let (q, l) = choose|q: int, l: Label| 0 <= q < a + 1 && #[trigger] pk.1.contains(l) && m == (#[trigger] cv[q]).to_multiset().add(copies(l, x as nat));
                        if q == a {
                            assert(row.contains(m));
                        } else {
                            assert(prev.contains(m));
                        }
                    }
                    if row.contains(m) {
                        let l = choose|l: Label| #[trigger] pk.1.subrange(0, pk.1.len() as int).contains(l) && m == cv[a as int].to_multiset().add(copies(l, x as nat));
                        assert(now.contains(m));
                    }
                    if prev.contains(m) {
                        let (q, l) = choose|q: int, l: Label| 0 <= q < a && #[trigger] pk.1.contains(l) && m == (#[trigger] cv[q]).to_multiset().add(copies(l, x as nat));
                        assert(now.contains(m));
                    }
                }
                assert(now =~= prev.union(row));
            }
            a += 1;
        }
        proof {
            let all = Set::new(|m: Multiset<Label>| exists|q: int, l: Label|
                0 <= q < cv.len() && #[trigger] pk.1.contains(l) && m == (#[trigger] cv[q]).to_multiset().add(copies(l, x as nat)));
            assert forall|m: Multiset<Label>| all.contains(m) <==> prefix_configs(ps, k + 1).contains(m) by {
                if all.contains(m) {
                    let (q, l) = choose|q: int, l: Label| 0 <= q < cv.len() && #[trigger] pk.1.contains(l) && m == (#[trigger] cv[q]).to_multiset().add(copies(l, x as nat));
                    assert(msets_of(cv).contains(cv[q].to_multiset()));
                    assert(prefix_configs(ps, k as int).contains(cv[q].to_multiset()));
                    assert(ps[k as int].1.contains(l));
                }
                if prefix_configs(ps, k + 1).contains(m) {
                    let (t, l) = choose|t: Multiset<Label>, l: Label|
                        #[trigger] prefix_configs(ps, k as int).contains(t) && #[trigger] ps[k as int].1.contains(l)
                        && m == t.add(copies(l, crate::normalize::exponent_of(ps[k as int])));
                    assert(msets_of(cv).contains(t));
                    let q = choose|q: int| 0 <= q < cv.len() && #[trigger] cv[q].to_multiset() == t;
                    assert(pk.1.contains(l));
                }
            }
            assert(all =~= prefix_configs(ps, k + 1));
            assert(degree_without_star_spec(ps.subrange(0, k + 1)) == degree_without_star_spec(ps.subrange(0, k as int)) + x);
        }
        cur = next;
        k += 1;
    }
    assert(ps.subrange(0, ps.len() as int) =~= ps);
    cur
}


/// Each entry comes before the next in the order of label sequences.
pub open spec fn lex_ordered(v: Seq<Seq<Label>>) -> bool {
    forall|i: int, j: int| 0 <= i < j < v.len() ==> seq_lt(#[trigger] v[i], #[trigger] v[j])
}

/// The configurations in increasing order of label sequences.
fn sort_configs(v: &Vec<Vec<Label>>) -> (r: Vec<Vec<Label>>)
    requires
        distinct_configs(vecs_view(v@)),
    ensures
        distinct_configs(vecs_view(r@)),
        lex_ordered(vecs_view(r@)),
        vecs_view(r@).to_set() == vecs_view(v@).to_set(),
{
    let ghost vv = vecs_view(v@);
    let mut r: Vec<Vec<Label>> = Vec::new();
    let mut i: usize = 0;
    while i < v.len()
        invariant
            i <= v@.len(),
            vv == vecs_view(v@),
            distinct_configs(vv),
            lex_ordered(vecs_view(r@)),
            forall|q: int| 0 <= q < r@.len() ==> sorted_labels(#[trigger] vecs_view(r@)[q]),
            vecs_view(r@).to_set() == vv.subrange(0, i as int).to_set(),
        decreases v@.len() - i,
    {
        let x = copy_labels(&v[i]);
        assert(x@ == vv[i as int]);
        let ghost before = vecs_view(r@);
        let mut k: usize = 0;
        while k < r.len() && labels_less(&r[k], &x)
            invariant
                k <= r@.len(),
                before == vecs_view(r@),
                forall|q: int| 0 <= q < k ==> seq_lt(#[trigger] before[q], x@),
            decreases r@.len() - k,
        {
            assert(before[k as int] == r@[k as int]@);
            k += 1;
        }
        proof {
            assert(!before.contains(x@)) by {
                if before.contains(x@) {
                    assert(before.to_set().contains(x@));
                    let q = choose|q: int| 0 <= q < i && vv.subrange(0, i as int)[q] == x@;
                    assert(vv[q] == vv[i as int]);
                }
            }
            if k < before.len() {
                assert(before[k as int] == r@[k as int]@);
                crate::order::lemma_seq_lt_total(before[k as int], x@);
            }
        }
        r.insert(k, x);
        proof {
            let after = vecs_view(r@);
            assert(after =~= before.subrange(0, k as int).push(x@) + before.subrange(k as int, before.len() as int));
            assert forall|a: int, b: int| 0 <= a < b < after.len() implies seq_lt(#[trigger] after[a], #[trigger] after[b]) by {
                if a < k && b == k {
                } else if a < k && b > k {
                    assert(after[a] == before[a] && after[b] == before[b - 1]);
                    if b - 1 > a {
                        assert(seq_lt(before[a], before[b - 1]));
                    }
                } else if a == k {
                    assert(after[b] == before[b - 1]);
                    if b - 1 > k {
                        assert(seq_lt(before[k as int], before[b - 1]));
                        crate::order::lemma_seq_lt_transitive(x@, before[k as int], before[b - 1]);
                    }
                } else if a > k {
                    assert(after[a] == before[a - 1] && after[b] == before[b - 1]);
                } else {
                    assert(after[a] == before[a] && after[b] == before[b]);
                }
            }
            assert forall|q: int| 0 <= q < after.len() implies sorted_labels(#[trigger] after[q]) by {
                if q < k {
                    assert(after[q] == before[q]);
                } else if q > k {
                    assert(after[q] == before[q - 1]);
                }
            }
            assert(vv.subrange(0, i + 1) =~= vv.subrange(0, i as int).push(x@));
            assert forall|y: Seq<Label>| after.to_set().contains(y) <==> before.to_set().insert(x@).contains(y) by {
                if after.to_set().contains(y) {
                    let q = choose|q: int| 0 <= q < after.len() && after[q] == y;
                    if q < k {
                        assert(before[q] == y);
                    } else if q > k {
                        assert(before[q - 1] == y);
                    }
                }
                if before.to_set().contains(y) {
                    let q = choose|q: int| 0 <= q < before.len() && before[q] == y;
                    if q < k {
                        assert(after[q] == y);
                    } else {
                        assert(after[q + 1] == y);
                    }
                }
                if y == x@ {
                    assert(after[k as int] == y);
                }
            }
            assert(after.to_set() =~= before.to_set().insert(x@));
            vv.subrange(0, i as int).lemma_push_to_set_commute(x@);
        }
        i += 1;
    }
    proof {
        let rv = vecs_view(r@);
        assert(vv.subrange(0, vv.len() as int) =~= vv);
        assert forall|a: int, b: int| 0 <= a < b < rv.len() implies #[trigger] rv[a] != #[trigger] rv[b] by {
            crate::order::lemma_seq_lt_irreflexive(rv[a]);
        }
    }
    r
}

/// The configurations of the lines of a constraint of finite degree `d`,
/// each once, in increasing order of label sequences.
fn configs_of(c: &Constraint, d: usize) -> (r: Vec<Vec<Label>>)
    requires
        c.wf(),
        c.degree == Degree::Finite(d),
    ensures
        distinct_configs(vecs_view(r@)),
        lex_ordered(vecs_view(r@)),
        msets_of(vecs_view(r@)) == config_set(c@),
        forall|q: int| 0 <= q < r@.len() ==> (#[trigger] r@[q])@.len() == d,
{
    let ghost ls = c@;
    let mut all: Vec<Vec<Label>> = Vec::new();
    proof {
        assert(msets_of(vecs_view(all@)) =~= Set::<Multiset<Label>>::empty());
        assert(config_set(ls.subrange(0, 0)) =~= Set::<Multiset<Label>>::empty());
    }
    let mut k: usize = 0;
    while k < c.lines.len()
        invariant
            k <= ls.len(),
            ls == c@,
            c.wf(),
            c.degree == Degree::Finite(d),
            distinct_configs(vecs_view(all@)),
            msets_of(vecs_view(all@)) == config_set(ls.subrange(0, k as int)),
            forall|q: int| 0 <= q < all@.len() ==> (#[trigger] all@[q])@.len() == d,
        decreases ls.len() - k,
    {
        let line = &c.lines[k];
        assert(line.wf() && degree_spec(line@) == Degree::Finite(d));
        assert(line@ == ls[k as int]);
        let cs = configs_of_line(line);
        let ghost cv = vecs_view(cs@);
        let ghost start = msets_of(vecs_view(all@));
        let mut j: usize = 0;
        while j < cs.len()
            invariant
                j <= cs@.len(),
                cv == vecs_view(cs@),
                distinct_configs(cv),
                forall|q: int| 0 <= q < cs@.len() ==> (#[trigger] cs@[q])@.len() == d,
                distinct_configs(vecs_view(all@)),
                forall|q: int| 0 <= q < all@.len() ==> (#[trigger] all@[q])@.len() == d,
                msets_of(vecs_view(all@)) == start.union(msets_of(cv.subrange(0, j as int))),
            decreases cs@.len() - j,
        {
            let x = copy_labels(&cs[j]);
            assert(x@ == cv[j as int]);
            let ghost before = vecs_view(all@);
            add_config(&mut all, x);
            proof {
                let a = cv.subrange(0, j as int);
                let b = cv.subrange(0, j + 1);
                assert(b =~= a.push(cv[j as int]));
                assert forall|y: Multiset<Label>| msets_of(b).contains(y) <==> msets_of(a).insert(cv[j as int].to_multiset()).contains(y) by {
                    if msets_of(b).contains(y) {
                        let q = choose|q: int| 0 <= q < b.len() && #[trigger] b[q].to_multiset() == y;
                        if q < a.len() {
                            assert(a[q] == b[q]);
                        }
                    }
                    if msets_of(a).contains(y) {
                        let q = choose|q: int| 0 <= q < a.len() && #[trigger] a[q].to_multiset() == y;
                        assert(b[q] == a[q]);
                    }
                    if y == cv[j as int].to_multiset() {
                        assert(b[j as int] == cv[j as int]);
                    }
                }
                assert(msets_of(b) =~= msets_of(a).insert(cv[j as int].to_multiset()));
                assert forall|q: int| 0 <= q < all@.len() implies (#[trigger] all@[q])@.len() == d by {
                    let av = vecs_view(all@);
                    assert(av[q] == all@[q]@);
                    if av[q] != x@ {
                        let t = choose|t: int| 0 <= t < before.len() && before[t] == av[q];
                    }
                }
            }
            j += 1;
        }
        proof {
            assert(cv.subrange(0, cv.len() as int) =~= cv);
            let a = ls.subrange(0, k as int);
            let b = ls.subrange(0, k + 1);
            assert forall|y: Multiset<Label>| config_set(b).contains(y) <==> config_set(a).union(line_configs(ls[k as int])).contains(y) by {
                if config_set(b).contains(y) {
                    let q = choose|q: int| 0 <= q < b.len() && #[trigger] line_configs(b[q]).contains(y);
                    if q < a.len() {
                        assert(a[q] == b[q]);
                        assert(config_set(a).contains(y));
                    }
                }
                if config_set(a).contains(y) {
                    let q = choose|q: int| 0 <= q < a.len() && #[trigger] line_configs(a[q]).contains(y);
                    assert(b[q] == a[q]);
                    assert(config_set(b).contains(y));
                }
                if line_configs(ls[k as int]).contains(y) {
                    assert(b[k as int] == ls[k as int]);
                    assert(config_set(b).contains(y));
                }
            }
            assert(config_set(b) =~= config_set(a).union(line_configs(ls[k as int])));
        }
        k += 1;
    }
    assert(ls.subrange(0, ls.len() as int) =~= ls);
    let r = sort_configs(&all);
    proof {
        let rv = vecs_view(r@);
        let av = vecs_view(all@);
        assert forall|m: Multiset<Label>| msets_of(rv).contains(m) <==> msets_of(av).contains(m) by {
            if msets_of(rv).contains(m) {
                let q = choose|q: int| 0 <= q < rv.len() && #[trigger] rv[q].to_multiset() == m;
                assert(rv.to_set().contains(rv[q]));
                let p = choose|p: int| 0 <= p < av.len() && av[p] == rv[q];
                assert(av[p].to_multiset() == m);
            }
            if msets_of(av).contains(m) {
                let q = choose|q: int| 0 <= q < av.len() && #[trigger] av[q].to_multiset() == m;
                assert(av.to_set().contains(av[q]));
                let p = choose|p: int| 0 <= p < rv.len() && rv[p] == av[q];
                assert(rv[p].to_multiset() == m);
            }
        }
        assert(msets_of(rv) =~= msets_of(av));
        assert forall|q: int| 0 <= q < r@.len() implies (#[trigger] r@[q])@.len() == d by {
            assert(rv[q] == r@[q]@);
            assert(rv.to_set().contains(rv[q]));
            let p = choose|p: int| 0 <= p < av.len() && av[p] == rv[q];
            assert(av[p] == all@[p]@);
        }
    }
    r
}

/// The sorted configuration `s` with the label at position `p` replaced
/// by `x`, sorted again.
fn replace_at(s: &Vec<Label>, p: usize, x: Label) -> (r: Vec<Label>)
    requires
        sorted_labels(s@),
        p < s@.len(),
    ensures
        sorted_labels(r@),
        r@.to_multiset() == s@.update(p as int, x).to_multiset(),
{
    let mut t: Vec<Label> = Vec::new();
    let mut i: usize = 0;
    while i < s.len()
        invariant
            i <= s@.len(),
            p < s@.len(),
            t@ == (if i <= p { s@.subrange(0, i as int) } else { s@.subrange(0, p as int) + s@.subrange(p + 1, i as int) }),
        decreases s@.len() - i,
    {
        if i != p {
            t.push(s[i]);
        }
        i += 1;
        proof {
            if i <= p {
                assert(t@ =~= s@.subrange(0, i as int));
            } else {
                assert(t@ =~= s@.subrange(0, p as int) + s@.subrange(p + 1, i as int));
            }
        }
    }
    let ghost a = s@.subrange(0, p as int);
    let ghost b = s@.subrange(p + 1, s@.len() as int);
    proof {
        assert(t@ == a + b);
        assert forall|x1: int, y1: int| 0 <= x1 < y1 < t@.len() implies t@[x1] <= t@[y1] by {
            if x1 < p && y1 >= p {
                assert(t@[y1] == s@[y1 + 1]);
                assert(t@[x1] == s@[x1]);
            } else if x1 >= p {
                assert(t@[x1] == s@[x1 + 1] && t@[y1] == s@[y1 + 1]);
            } else {
                assert(t@[x1] == s@[x1] && t@[y1] == s@[y1]);
            }
        }
        assert(s@.update(p as int, x) =~= a.push(x) + b);
        vstd::seq_lib::lemma_multiset_commutative(a.push(x), b);
        vstd::seq_lib::lemma_multiset_commutative(a, b);
    }
    insert_one(&t, x)
}

/// Whether `cand` is one of the configurations of `v`.
fn contains_config(v: &Vec<Vec<Label>>, cand: &Vec<Label>) -> (r: bool)
    ensures
        r == vecs_view(v@).contains(cand@),
{
    let mut i: usize = 0;
    while i < v.len()
        invariant
            i <= v@.len(),
            forall|q: int| 0 <= q < i ==> vecs_view(v@)[q] != cand@,
        decreases v@.len() - i,
    {
        if crate::group::labels_equal(&v[i], cand) {
            assert(vecs_view(v@)[i as int] == cand@);
            return true;
        }
        i += 1;
    }
    false
}

/// The labels of `alphabet`, in order, that can replace the label at
/// position `p` of the configuration `s` while keeping it in `valid`.
pub open spec fn replacements(valid: Set<Multiset<Label>>, alphabet: Seq<Label>, s: Seq<Label>, p: int) -> Seq<Label>
    decreases alphabet.len(),
{
    if alphabet.len() == 0 {
        Seq::empty()
    } else {
        let q = replacements(valid, alphabet.drop_last(), s, p);
        if valid.contains(s.update(p, alphabet.last()).to_multiset()) {
            q.push(alphabet.last())
        } else {
            q
        }
    }
}

/// The one-coordinate star around the configuration `s`: for each position,
/// the labels that can take its place.
pub open spec fn star_parts(valid: Set<Multiset<Label>>, alphabet: Seq<Label>, s: Seq<Label>) -> Seq<PartV> {
    Seq::new(s.len(), |p: int| (GroupType::Many(1), sorted_of(replacements(valid, alphabet, s, p).to_set())))
}

/// Adding the lines of `news`, one after the other, to the lines `ls`.
pub open spec fn add_lines_spec(ls: Seq<Seq<PartV>>, news: Seq<Seq<PartV>>) -> Seq<Seq<PartV>>
    decreases news.len(),
{
    if news.len() == 0 {
        ls
    } else {
        add_line_spec(add_lines_spec(ls, news.drop_last()), news.last())
    }
}

/// `centers` lists the configurations of `ls`, each once, as sorted label
/// sequences in increasing order.
pub open spec fn centers_ok(centers: Seq<Seq<Label>>, ls: Seq<Seq<PartV>>) -> bool {
    &&& distinct_configs(centers)
    &&& lex_ordered(centers)
    &&& msets_of(centers) == config_set(ls)
}

/// A line of parts that each occur once has as many labels as parts.
proof fn lemma_ones_degree(ps: Seq<PartV>)
    requires
        forall|i: int| 0 <= i < ps.len() ==> (#[trigger] ps[i]).0 == GroupType::Many(1),
    ensures
        degree_without_star_spec(ps) == ps.len(),
        !crate::line::has_star_spec(ps),
    decreases ps.len(),
{
    if ps.len() > 0 {
        let q = ps.drop_last();
        assert forall|i: int| 0 <= i < q.len() implies (#[trigger] q[i]).0 == GroupType::Many(1) by {
            assert(q[i] == ps[i]);
        }
        lemma_ones_degree(q);
        assert(ps.last() == ps[ps.len() - 1]);
    }
    if crate::line::has_star_spec(ps) {
        let k = choose|k: int| 0 <= k < ps.len() && (#[trigger] ps[k]).0 == GroupType::Star;
    }
}

impl Constraint {
    /// Replaces the constraint by its maximal one-coordinate-star relaxation:
    /// for every configuration that it allows, taken in increasing order,
    /// each position is replaced by the set of labels that keep the
    /// configuration allowed when only that position changes; the lines
    /// that another includes are discarded. A constraint without a finite
    /// degree is refused and left as it is.
    pub fn maximize_with_star_relaxation(&mut self) -> (r: Result<(), &'static str>)
        requires
            old(self).wf(),
        ensures
            r is Err <==> old(self).degree == Degree::Star,
            r is Err ==> r->Err_0@ == "Speedup with star relaxation requires a finite passive degree."@
                && *final(self) == *old(self),
            r is Ok ==> {
                &&& final(self).wf()
                &&& final(self).degree == old(self).degree
                &&& final(self).is_maximized
                &&& exists|centers: Seq<Seq<Label>>, rs: Seq<Seq<PartV>>|
                    #![trigger centers_ok(centers, old(self)@), add_lines_spec(Seq::empty(), rs)]
                    centers_ok(centers, old(self)@)
                    && rs.len() == centers.len()
                    && (forall|i: int| 0 <= i < rs.len() ==> #[trigger] crate::line::normalized_from(rs[i],
                        star_parts(config_set(old(self)@), sorted_of(labels_spec(old(self)@)), centers[i])))
                    && final(self)@ == add_lines_spec(Seq::empty(), rs)
            },
    {
        let d = match self.degree {
            Degree::Star => {
                return Err("Speedup with star relaxation requires a finite passive degree.");
            },
            Degree::Finite(d) => d,
        };
        let ghost ls = self@;
        let alphabet = Group::from_set(&self.labels_appearing());
        proof {
            crate::edit::lemma_sorted_of(alphabet@);
        }
        let valid = configs_of(self, d);
        let ghost vs = config_set(ls);
        let ghost al = sorted_of(labels_spec(ls));
        let ghost cv = vecs_view(valid@);
        assert(alphabet@ == al);
        let mut relaxed = Constraint { lines: Vec::new(), is_maximized: false, degree: self.degree };
        let ghost mut rs: Seq<Seq<PartV>> = Seq::empty();
        let mut ci: usize = 0;
        while ci < valid.len()
            invariant
                ci <= valid@.len(),
                cv == vecs_view(valid@),
                distinct_configs(cv),
                msets_of(cv) == vs,
                vs == config_set(ls),
                al == sorted_of(labels_spec(ls)),
                lex_ordered(cv),
                forall|q: int| 0 <= q < valid@.len() ==> (#[trigger] valid@[q])@.len() == d,
                alphabet@ == al,
                alphabet.wf(),
                relaxed.wf(),
                relaxed.degree == Degree::Finite(d),
                ls == self@,
                self.wf(),
                self.degree == Degree::Finite(d),
                rs.len() == ci,
                forall|i: int| 0 <= i < ci ==> #[trigger] crate::line::normalized_from(rs[i], star_parts(vs, al, cv[i])),
                relaxed@ == add_lines_spec(Seq::empty(), rs),
            decreases valid@.len() - ci,
        {
            let center = &valid[ci];
            assert(center@ == cv[ci as int]);
            assert(sorted_labels(cv[ci as int]));
            let n = center.len();
            let mut parts: Vec<Part> = Vec::new();
            let mut p: usize = 0;
            while p < n
                invariant
                    p <= n,
                    n == center@.len(),
                    center@ == cv[ci as int],
                    sorted_labels(center@),
                    cv == vecs_view(valid@),
                    distinct_configs(cv),
                    msets_of(cv) == vs,
                    alphabet@ == al,
                    alphabet.wf(),
                    parts_view(parts@) == star_parts(vs, al, center@).subrange(0, p as int),
                    parts@.len() == p,
                    forall|q: int| 0 <= q < p ==> (#[trigger] parts@[q]).group.wf(),
                decreases n - p,
            {
                let mut repl: Vec<Label> = Vec::new();
                let mut j: usize = 0;
                while j < alphabet.0.len()
                    invariant
                        j <= al.len(),
                        p < center@.len(),
                        alphabet@ == al,
                        sorted_labels(center@),
                        cv == vecs_view(valid@),
                        distinct_configs(cv),
                        msets_of(cv) == vs,
                        repl@ == replacements(vs, al.subrange(0, j as int), center@, p as int),
                    decreases al.len() - j,
                {
                    let x = alphabet.0[j];
                    let cand = replace_at(center, p, x);
                    let found = contains_config(&valid, &cand);
                    proof {
                        let sub = al.subrange(0, j + 1);
                        assert(sub.drop_last() =~= al.subrange(0, j as int));
                        assert(sub.last() == x);
                        let m = center@.update(p as int, x).to_multiset();
                        if found {
                            let q = choose|q: int| 0 <= q < cv.len() && cv[q] == cand@;
                            assert(cv[q].to_multiset() == m);
                            assert(vs.contains(m));
                        } else if vs.contains(m) {
                            let q = choose|q: int| 0 <= q < cv.len() && #[trigger] cv[q].to_multiset() == m;
                            lemma_sorted_same_multiset(cv[q], cand@);
                            assert(cv.contains(cand@));
                        }
                    }
                    if found {
                        repl.push(x);
                    }
                    j += 1;
                }
                assert(al.subrange(0, al.len() as int) =~= al);
                let g = Group::from_labels(&repl);
                proof {
                    crate::edit::lemma_sorted_of(g@);
                    assert(g@ == sorted_of(replacements(vs, al, center@, p as int).to_set()));
                }
                let ghost before = parts@;
                parts.push(Part { gtype: GroupType::one(), group: g });
                proof {
                    assert(parts_view(parts@) =~= parts_view(before).push((GroupType::Many(1), g@)));
                    assert(star_parts(vs, al, center@).subrange(0, p + 1) =~= star_parts(vs, al, center@).subrange(0, p as int).push((GroupType::Many(1), g@)));
                    assert forall|q: int| 0 <= q < p + 1 implies (#[trigger] parts@[q]).group.wf() by {
                        if q < p {
                            assert(parts@[q] == before[q]);
                        }
                    }
                }
                p += 1;
            }
            proof {
                assert(star_parts(vs, al, center@).subrange(0, n as int) =~= star_parts(vs, al, center@));
            }
            let mut star = Line { parts };
            proof {
                let sp = star@;
                assert(sp == star_parts(vs, al, center@));
                assert forall|i: int| 0 <= i < sp.len() implies (#[trigger] sp[i]).0 == GroupType::Many(1) by {}
                lemma_ones_degree(sp);
                assert(valid@[ci as int]@.len() == d);
                if self@.len() > 0 {
                    let l0 = self.lines@[0];
                    assert(l0.wf());
                    assert(degree_spec(l0@) == Degree::Finite(d));
                    assert(crate::line::parts_wf(l0@));
                    assert(degree_without_star_spec(l0@) <= 255);
                    assert(!crate::line::has_star_spec(l0@));
                    assert(d == degree_without_star_spec(l0@) as usize);
                } else {
                    let m = cv[ci as int].to_multiset();
                    assert(msets_of(cv).contains(m));
                    assert(config_set(ls).contains(m));
                    assert(ls.len() == 0);
                    assert(false);
                }
                assert(d <= 255);
                assert forall|i: int| 0 <= i < sp.len() implies crate::group::strictly_sorted(#[trigger] sp[i].1) by {
                    assert(sp[i] == star.parts@[i]@);
                    assert(star.parts@[i].group.wf());
                }
                assert(star.wf());
                assert(degree_spec(sp) == Degree::Finite(d));
            }
            let ghost raw = star@;
            star.normalize();
            let ghost nv = star@;
            relaxed.add_line_and_discard_non_maximal(star);
            proof {
                let old_rs = rs;
                rs = rs.push(nv);
                assert(rs.drop_last() =~= old_rs);
                assert(rs.last() == nv);
                assert forall|i: int| 0 <= i < ci + 1 implies #[trigger] crate::line::normalized_from(rs[i], star_parts(vs, al, cv[i])) by {
                    if i == ci {
                        assert(raw == star_parts(vs, al, cv[i]));
                    }
                }
            }
            ci += 1;
        }
        relaxed.is_maximized = true;
        proof {
            assert(centers_ok(cv, ls));
        }
        *self = relaxed;
        Ok(())
    }
}

} // verus!
