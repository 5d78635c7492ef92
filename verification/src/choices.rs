use vstd::prelude::*;

use crate::constraint::Constraint;
use crate::group::{copy_labels, strictly_sorted, Group, Label};
use crate::line::{Line, PartV};
use crate::normalize::lemma_sorted_same_set;
use crate::order::{labels_less, seq_lt};

verus! {

broadcast use vstd::set::group_set_axioms;

/// The sets of labels that arise from taking one label of each of the first
/// `k` groups of `gs`, one group after the other.
pub open spec fn prefix_sets(gs: Seq<Seq<Label>>, k: int) -> Set<Set<Label>>
    decreases k,
{
    if k <= 0 {
        set![Set::<Label>::empty()]
    } else {
        Set::new(|s: Set<Label>| exists|t: Set<Label>, l: Label|
            #[trigger] prefix_sets(gs, k - 1).contains(t) && #[trigger] gs[k - 1].contains(l) && s == t.insert(l))
    }
}

/// `c` takes one label of each group of `gs`.
pub open spec fn is_choice(gs: Seq<Seq<Label>>, c: Seq<Label>) -> bool {
    &&& c.len() == gs.len()
    &&& forall|i: int| 0 <= i < c.len() ==> #[trigger] gs[i].contains(c[i])
}

/// The sets of labels that the choices of `gs` take.
pub open spec fn choice_sets(gs: Seq<Seq<Label>>) -> Set<Set<Label>> {
    Set::new(|s: Set<Label>| exists|c: Seq<Label>| is_choice(gs, c) && #[trigger] c.to_set() == s)
}

/// The labels of the entries of `v`, as sets.
pub open spec fn sets_of(v: Seq<Seq<Label>>) -> Set<Set<Label>> {
    Set::new(|s: Set<Label>| exists|i: int| 0 <= i < v.len() && #[trigger] v[i].to_set() == s)
}

/// Each entry is strictly increasing, and no two entries are equal.
pub open spec fn distinct_sorted(v: Seq<Seq<Label>>) -> bool {
    &&& forall|i: int| 0 <= i < v.len() ==> strictly_sorted(#[trigger] v[i])
    &&& forall|i: int, j: int| 0 <= i < j < v.len() ==> #[trigger] v[i] != #[trigger] v[j]
}

/// The views of vectors of labels.
pub open spec fn vecs_view(v: Seq<Vec<Label>>) -> Seq<Seq<Label>> {
    v.map_values(|x: Vec<Label>| x@)
}

/// Taking the labels one group after the other gives the sets of the choices.
pub proof fn lemma_prefix_sets_are_choices(gs: Seq<Seq<Label>>, k: int)
    requires
        0 <= k <= gs.len(),
    ensures
        prefix_sets(gs, k) == choice_sets(gs.subrange(0, k)),
    decreases k,
{
    let g = gs.subrange(0, k);
    if k == 0 {
        assert forall|s: Set<Label>| choice_sets(g).contains(s) implies s == Set::<Label>::empty() by {
            let c = choose|c: Seq<Label>| is_choice(g, c) && #[trigger] c.to_set() == s;
            assert(c =~= Seq::<Label>::empty());
            assert(c.to_set() =~= Set::<Label>::empty());
        }
        assert(is_choice(g, Seq::<Label>::empty()));
        assert(Seq::<Label>::empty().to_set() =~= Set::<Label>::empty());
        assert(prefix_sets(gs, k) =~= choice_sets(g));
    } else {
        lemma_prefix_sets_are_choices(gs, k - 1);
        let p = gs.subrange(0, k - 1);
        assert forall|s: Set<Label>| prefix_sets(gs, k).contains(s) implies choice_sets(g).contains(s) by {
            let (t, l) = choose|t: Set<Label>, l: Label|
                #[trigger] prefix_sets(gs, k - 1).contains(t) && #[trigger] gs[k - 1].contains(l) && s == t.insert(l);
            assert(choice_sets(p).contains(t));
            let c = choose|c: Seq<Label>| is_choice(p, c) && #[trigger] c.to_set() == t;
            let d = c.push(l);
            assert forall|i: int| 0 <= i < d.len() implies #[trigger] g[i].contains(d[i]) by {
                if i < c.len() {
                    assert(p[i] == g[i]);
                }
            }
            c.lemma_push_to_set_commute(l);
            assert(d.to_set() == s);
        }
        assert forall|s: Set<Label>| choice_sets(g).contains(s) implies prefix_sets(gs, k).contains(s) by {
            let c = choose|c: Seq<Label>| is_choice(g, c) && #[trigger] c.to_set() == s;
            let b = c.drop_last();
            let l = c.last();
            assert forall|i: int| 0 <= i < b.len() implies #[trigger] p[i].contains(b[i]) by {
                assert(g[i] == p[i]);
                assert(g[i].contains(c[i]));
            }
            assert(is_choice(p, b));
            assert(choice_sets(p).contains(b.to_set()));
            assert(c =~= b.push(l));
            b.lemma_push_to_set_commute(l);
            assert(g[k - 1].contains(c[k - 1]));
            assert(gs[k - 1].contains(l));
        }
        assert(prefix_sets(gs, k) =~= choice_sets(g));
    }
}

/// `t` with `l` added, strictly increasing.
pub fn insert_label(t: &Vec<Label>, l: Label) -> (r: Vec<Label>)
    requires
        strictly_sorted(t@),
    ensures
        strictly_sorted(r@),
        r@.to_set() == t@.to_set().insert(l),
{
    let mut r: Vec<Label> = Vec::new();
    let mut i: usize = 0;
    while i < t.len() && t[i] < l
        invariant
            i <= t@.len(),
            strictly_sorted(t@),
            r@ == t@.subrange(0, i as int),
            forall|q: int| 0 <= q < i ==> t@[q] < l,
        decreases t@.len() - i,
    {
        r.push(t[i]);
        i += 1;
    }
    let ghost low = r@;
    if i == t.len() || t[i] != l {
        r.push(l);
    }
    let ghost mid = r@;
    let mut j: usize = i;
    while j < t.len()
        invariant
            i <= j <= t@.len(),
            r@ == mid + t@.subrange(i as int, j as int),
        decreases t@.len() - j,
    {
        r.push(t[j]);
        j += 1;
        assert(r@ =~= mid + t@.subrange(i as int, j as int));
    }
    proof {
        assert(t@ =~= low + t@.subrange(i as int, t@.len() as int));
        assert forall|a: int, b: int| 0 <= a < b < r@.len() implies r@[a] < r@[b] by {
            if i < t@.len() {
                assert(t@[i as int] >= l);
            }
        }
        assert forall|x: Label| r@.to_set().contains(x) <==> t@.to_set().insert(l).contains(x) by {
            if r@.to_set().contains(x) {
                let q = choose|q: int| 0 <= q < r@.len() && r@[q] == x;
                if x != l {
                    if q < low.len() {
                        assert(t@[q] == x);
                    } else if mid.len() > low.len() {
                        assert(t@[q - 1] == x);
                    } else {
                        assert(t@[q] == x);
                    }
                }
            }
            if t@.to_set().contains(x) {
                let q = choose|q: int| 0 <= q < t@.len() && t@[q] == x;
                if q < i {
                    assert(r@[q] == x);
                } else if mid.len() > low.len() {
                    assert(r@[q + 1] == x);
                } else {
                    assert(r@[q] == x);
                }
            }
            if x == l {
                if mid.len() > low.len() {
                    assert(r@[low.len() as int] == l);
                } else {
                    assert(t@[i as int] == l);
                    assert(r@[i as int] == l);
                }
            }
        }
        assert(r@.to_set() =~= t@.to_set().insert(l));
    }
    r
}

/// Adds `s` to `v` unless an entry holds the same labels.
pub fn add_unique(v: &mut Vec<Vec<Label>>, s: Vec<Label>)
    requires
        distinct_sorted(vecs_view(old(v)@)),
        strictly_sorted(s@),
    ensures
        distinct_sorted(vecs_view(final(v)@)),
        sets_of(vecs_view(final(v)@)) == sets_of(vecs_view(old(v)@)).insert(s@.to_set()),
        vecs_view(old(v)@).contains(s@) ==> final(v)@ == old(v)@,
        !vecs_view(old(v)@).contains(s@) ==> vecs_view(final(v)@) == vecs_view(old(v)@).push(s@),
{
    let ghost before = vecs_view(v@);
    let mut i: usize = 0;
    while i < v.len()
        invariant
            i <= v@.len(),
            before == vecs_view(v@),
            distinct_sorted(before),
            forall|q: int| 0 <= q < i ==> before[q] != s@,
        decreases v@.len() - i,
    {
        if crate::group::labels_equal(&v[i], &s) {
            proof {
                assert(before[i as int] == s@);
                assert(sets_of(before).contains(s@.to_set()));
                assert(sets_of(before).insert(s@.to_set()) =~= sets_of(before));
            }
            return;
        }
        i += 1;
    }
    v.push(s);
    proof {
        let after = vecs_view(v@);
        assert(after =~= before.push(s@));
        assert(!before.contains(s@));
        assert forall|x: Set<Label>| sets_of(after).contains(x) <==> sets_of(before).insert(s@.to_set()).contains(x) by {
            if sets_of(after).contains(x) {
                let q = choose|q: int| 0 <= q < after.len() && #[trigger] after[q].to_set() == x;
                if q < before.len() {
                    assert(before[q] == after[q]);
                }
            }
            if sets_of(before).contains(x) {
                let q = choose|q: int| 0 <= q < before.len() && #[trigger] before[q].to_set() == x;
                assert(after[q] == before[q]);
            }
            if x == s@.to_set() {
                assert(after[before.len() as int] == s@);
            }
        }
        assert(sets_of(after) =~= sets_of(before).insert(s@.to_set()));
        assert forall|a: int, b: int| 0 <= a < b < after.len() implies #[trigger] after[a] != #[trigger] after[b] by {
            if b == before.len() {
                assert(after[a] == before[a]);
                assert(before[a] != s@);
            } else {
                assert(after[a] == before[a] && after[b] == before[b]);
            }
        }
    }
}

/// Two entries of a list of distinct strictly increasing sequences hold
/// different sets of labels.
pub proof fn lemma_distinct_sets(v: Seq<Seq<Label>>, i: int, j: int)
    requires
        distinct_sorted(v),
        0 <= i < v.len(),
        0 <= j < v.len(),
        i != j,
    ensures
        v[i].to_set() != v[j].to_set(),
{
    if v[i].to_set() == v[j].to_set() {
        lemma_sorted_same_set(v[i], v[j]);
        if i < j {
            assert(v[i] != v[j]);
        } else {
            assert(v[j] != v[i]);
        }
    }
}

/// The distinct sets of labels taken by the choices of the groups `gs`, each
/// as a strictly increasing vector.
pub fn choices_of_groups(gs: &Vec<Group>) -> (r: Vec<Vec<Label>>)
    ensures
        distinct_sorted(vecs_view(r@)),
        sets_of(vecs_view(r@)) == choice_sets(gs@.map_values(|g: Group| g@)),
{
    let ghost gv = gs@.map_values(|g: Group| g@);
    let mut cur: Vec<Vec<Label>> = Vec::new();
    cur.push(Vec::new());
    proof {
        let cv = vecs_view(cur@);
        assert(cv[0] == Seq::<Label>::empty());
        assert(Seq::<Label>::empty().to_set() =~= Set::<Label>::empty());
        assert forall|x: Set<Label>| sets_of(cv).contains(x) <==> prefix_sets(gv, 0).contains(x) by {
            if sets_of(cv).contains(x) {
                let q = choose|q: int| 0 <= q < cv.len() && #[trigger] cv[q].to_set() == x;
                assert(q == 0);
            }
        }
        assert(sets_of(cv) =~= prefix_sets(gv, 0));
    }
    let mut k: usize = 0;
    while k < gs.len()
        invariant
            k <= gs@.len(),
            gv == gs@.map_values(|g: Group| g@),
            distinct_sorted(vecs_view(cur@)),
            sets_of(vecs_view(cur@)) == prefix_sets(gv, k as int),
        decreases gs@.len() - k,
    {
        let g = &gs[k];
        let ghost gk = gv[k as int];
        assert(g@ == gk);
        let ghost cv = vecs_view(cur@);
        let mut next: Vec<Vec<Label>> = Vec::new();
        let mut a: usize = 0;
        while a < cur.len()
            invariant
                a <= cur@.len(),
                cv == vecs_view(cur@),
                g@ == gk,
                distinct_sorted(cv),
                distinct_sorted(vecs_view(next@)),
                sets_of(vecs_view(next@)) == Set::new(|s: Set<Label>| exists|q: int, l: Label|
                    0 <= q < a && #[trigger] gk.contains(l) && s == (#[trigger] cv[q]).to_set().insert(l)),
            decreases cur@.len() - a,
        {
            let ghost start = sets_of(vecs_view(next@));
            let mut b: usize = 0;
            while b < g.0.len()
                invariant
                    b <= g@.len(),
                    a < cv.len(),
                    cv == vecs_view(cur@),
                    g@ == gk,
                    distinct_sorted(cv),
                    distinct_sorted(vecs_view(next@)),
                    sets_of(vecs_view(next@)) == start.union(Set::new(|s: Set<Label>| exists|l: Label|
                        #[trigger] gk.subrange(0, b as int).contains(l) && s == cv[a as int].to_set().insert(l))),
                decreases g@.len() - b,
            {
                let l = g.0[b];
                assert(cur@[a as int]@ == cv[a as int]);
                let s = insert_label(&cur[a], l);
                let ghost before = sets_of(vecs_view(next@));
                add_unique(&mut next, s);
                proof {
                    let old_part = Set::new(|s: Set<Label>| exists|l: Label|
                        #[trigger] gk.subrange(0, b as int).contains(l) && s == cv[a as int].to_set().insert(l));
                    let new_part = Set::new(|s: Set<Label>| exists|l2: Label|
                        #[trigger] gk.subrange(0, b + 1).contains(l2) && s == cv[a as int].to_set().insert(l2));
                    assert(gk.subrange(0, b + 1) =~= gk.subrange(0, b as int).push(l));
                    assert(gk.subrange(0, b + 1)[b as int] == l);
                    assert forall|x: Set<Label>| new_part.contains(x) <==> old_part.insert(cv[a as int].to_set().insert(l)).contains(x) by {
                        let sub1 = gk.subrange(0, b + 1);
                        let sub0 = gk.subrange(0, b as int);
                        if new_part.contains(x) {
                            let l2 = choose|l2: Label| #[trigger] gk.subrange(0, b + 1).contains(l2) && x == cv[a as int].to_set().insert(l2);
                            if l2 != l {
                                let q = choose|q: int| 0 <= q < sub1.len() && sub1[q] == l2;
                                assert(q < b);
                                assert(sub0[q] == l2);
                                assert(sub0.contains(l2));
                            }
                        }
                        if old_part.contains(x) {
                            let l2 = choose|l2: Label| #[trigger] gk.subrange(0, b as int).contains(l2) && x == cv[a as int].to_set().insert(l2);
                            let q = choose|q: int| 0 <= q < sub0.len() && sub0[q] == l2;
                            assert(sub1[q] == l2);
                            assert(sub1.contains(l2));
                        }
                        if x == cv[a as int].to_set().insert(l) {
                            assert(gk.subrange(0, b + 1).contains(l));
                        }
                    }
                    assert(new_part =~= old_part.insert(cv[a as int].to_set().insert(l)));
                    assert(sets_of(vecs_view(next@)) =~= start.union(new_part));
                }
                b += 1;
            }
            proof {
                assert(gk.subrange(0, gk.len() as int) =~= gk);
                let prev = Set::new(|s: Set<Label>| exists|q: int, l: Label|
                    0 <= q < a && #[trigger] gk.contains(l) && s == (#[trigger] cv[q]).to_set().insert(l));
                let now = Set::new(|s: Set<Label>| exists|q: int, l: Label|
                    0 <= q < a + 1 && #[trigger] gk.contains(l) && s == (#[trigger] cv[q]).to_set().insert(l));
                let row = Set::new(|s: Set<Label>| exists|l: Label|
                    #[trigger] gk.subrange(0, gk.len() as int).contains(l) && s == cv[a as int].to_set().insert(l));
                assert forall|x: Set<Label>| now.contains(x) <==> prev.union(row).contains(x) by {
                    if now.contains(x) {
                        let (q, l) = choose|q: int, l: Label| 0 <= q < a + 1 && #[trigger] gk.contains(l) && x == (#[trigger] cv[q]).to_set().insert(l);
                        if q == a {
                            assert(row.contains(x));
                        } else {
                            assert(prev.contains(x));
                        }
                    }
                    if row.contains(x) {
                        let l = choose|l: Label| #[trigger] gk.subrange(0, gk.len() as int).contains(l) && x == cv[a as int].to_set().insert(l);
                        assert(now.contains(x));
                    }
                    if prev.contains(x) {
                        let (q, l) = choose|q: int, l: Label| 0 <= q < a && #[trigger] gk.contains(l) && x == (#[trigger] cv[q]).to_set().insert(l);
                        assert(now.contains(x));
                    }
                }
                assert(now =~= prev.union(row));
            }
            a += 1;
        }
        proof {
            let all = Set::new(|s: Set<Label>| exists|q: int, l: Label|
                0 <= q < cv.len() && #[trigger] gk.contains(l) && s == (#[trigger] cv[q]).to_set().insert(l));
            assert forall|x: Set<Label>| all.contains(x) <==> prefix_sets(gv, k + 1).contains(x) by {
                if all.contains(x) {
                    let (q, l) = choose|q: int, l: Label| 0 <= q < cv.len() && #[trigger] gk.contains(l) && x == (#[trigger] cv[q]).to_set().insert(l);
                    assert(sets_of(cv).contains(cv[q].to_set()));
                    assert(prefix_sets(gv, k as int).contains(cv[q].to_set()));
                    assert(gv[k as int].contains(l));
                }
                if prefix_sets(gv, k + 1).contains(x) {
                    let (t, l) = choose|t: Set<Label>, l: Label|
                        #[trigger] prefix_sets(gv, k as int).contains(t) && #[trigger] gv[k as int].contains(l) && x == t.insert(l);
                    assert(sets_of(cv).contains(t));
                    let q = choose|q: int| 0 <= q < cv.len() && #[trigger] cv[q].to_set() == t;
                    assert(gk.contains(l));
                }
            }
            assert(all =~= prefix_sets(gv, k + 1));
        }
        cur = next;
        k += 1;
    }
    proof {
        lemma_prefix_sets_are_choices(gv, gv.len() as int);
        assert(gv.subrange(0, gv.len() as int) =~= gv);
    }
    cur
}


/// The groups of a line, in order.
pub open spec fn line_groups(ps: Seq<PartV>) -> Seq<Seq<Label>> {
    ps.map_values(|p: PartV| p.1)
}

/// The sets of labels that a choice on some line of `ls` takes.
pub open spec fn all_choice_sets(ls: Seq<Seq<PartV>>) -> Set<Set<Label>> {
    Set::new(|s: Set<Label>| exists|i: int| 0 <= i < ls.len() && #[trigger] choice_sets(line_groups(ls[i])).contains(s))
}

/// `s` belongs to `all`, and no other set of `all` lies within it.
pub open spec fn is_minimal_in(all: Set<Set<Label>>, s: Set<Label>) -> bool {
    &&& all.contains(s)
    &&& forall|t: Set<Label>| #[trigger] all.contains(t) && t.subset_of(s) ==> t == s
}

/// The sets of `all` that are minimal in it.
pub open spec fn minimal_sets(all: Set<Set<Label>>) -> Set<Set<Label>> {
    Set::new(|s: Set<Label>| is_minimal_in(all, s))
}

/// Each entry comes before the next in the order of label sequences.
pub open spec fn lex_sorted(v: Seq<Seq<Label>>) -> bool {
    forall|i: int, j: int| 0 <= i < j < v.len() ==> seq_lt(#[trigger] v[i], #[trigger] v[j])
}

/// The entries of `v` in increasing order of label sequences.
pub fn sort_label_vecs(v: &Vec<Vec<Label>>) -> (r: Vec<Vec<Label>>)
    requires
        distinct_sorted(vecs_view(v@)),
    ensures
        distinct_sorted(vecs_view(r@)),
        lex_sorted(vecs_view(r@)),
        sets_of(vecs_view(r@)) == sets_of(vecs_view(v@)),
        vecs_view(r@).to_set() == vecs_view(v@).to_set(),
{
    let ghost vv = vecs_view(v@);
    let mut r: Vec<Vec<Label>> = Vec::new();
    let mut i: usize = 0;
    while i < v.len()
        invariant
            i <= v@.len(),
            vv == vecs_view(v@),
            distinct_sorted(vv),
            lex_sorted(vecs_view(r@)),
            forall|q: int| 0 <= q < r@.len() ==> strictly_sorted(#[trigger] vecs_view(r@)[q]),
            vecs_view(r@).to_set() == vv.subrange(0, i as int).to_set(),
        decreases v@.len() - i,
    {
        let x = copy_labels(&v[i]);
        assert(x@ == vv[i as int]);
        let ghost before = vecs_view(r@);
        let mut k: usize = 0;
        while k < r.len() && labels_less(&r[k], &x)
            invariant
                k <= r@.len(),
                before == vecs_view(r@),
                forall|q: int| 0 <= q < k ==> seq_lt(#[trigger] before[q], x@),
            decreases r@.len() - k,
        {
            assert(before[k as int] == r@[k as int]@);
            k += 1;
        }
        proof {
            assert(!before.contains(x@)) by {
                if before.contains(x@) {
                    assert(before.to_set().contains(x@));
                    let q = choose|q: int| 0 <= q < i && vv.subrange(0, i as int)[q] == x@;
                    assert(vv[q] == vv[i as int]);
                }
            }
            if k < before.len() {
                assert(before[k as int] == r@[k as int]@);
                assert(!seq_lt(before[k as int], x@));
                crate::order::lemma_seq_lt_total(before[k as int], x@);
                assert(before[k as int] != x@);
            }
        }
        r.insert(k, x);
        proof {
            let after = vecs_view(r@);
            assert(after =~= before.subrange(0, k as int).push(x@) + before.subrange(k as int, before.len() as int));
            assert forall|a: int, b: int| 0 <= a < b < after.len() implies seq_lt(#[trigger] after[a], #[trigger] after[b]) by {
                if a < k && b == k {
                } else if a < k && b > k {
                    assert(after[a] == before[a] && after[b] == before[b - 1]);
                    if b - 1 > a {
                        assert(seq_lt(before[a], before[b - 1]));
                    }
                } else if a == k {
                    assert(after[b] == before[b - 1]);
                    if b - 1 > k {
                        assert(seq_lt(before[k as int], before[b - 1]));
                        crate::order::lemma_seq_lt_transitive(x@, before[k as int], before[b - 1]);
                    }
                } else if a > k {
                    assert(after[a] == before[a - 1] && after[b] == before[b - 1]);
                } else {
                    assert(after[a] == before[a] && after[b] == before[b]);
                }
            }
            assert forall|q: int| 0 <= q < after.len() implies strictly_sorted(#[trigger] after[q]) by {
                if q < k {
                    assert(after[q] == before[q]);
                } else if q > k {
                    assert(after[q] == before[q - 1]);
                }
            }
            assert(vv.subrange(0, i + 1) =~= vv.subrange(0, i as int).push(x@));
            assert forall|y: Seq<Label>| after.to_set().contains(y) <==> before.to_set().insert(x@).contains(y) by {
                if after.to_set().contains(y) {
                    let q = choose|q: int| 0 <= q < after.len() && after[q] == y;
                    if q < k {
                        assert(before[q] == y);
                    } else if q > k {
                        assert(before[q - 1] == y);
                    }
                }
                if before.to_set().contains(y) {
                    let q = choose|q: int| 0 <= q < before.len() && before[q] == y;
                    if q < k {
                        assert(after[q] == y);
                    } else {
                        assert(after[q + 1] == y);
                    }
                }
                if y == x@ {
                    assert(after[k as int] == y);
                }
            }
            assert(after.to_set() =~= before.to_set().insert(x@));
            vv.subrange(0, i as int).lemma_push_to_set_commute(x@);
        }
        i += 1;
    }
    proof {
        let rv = vecs_view(r@);
        assert(vv.subrange(0, vv.len() as int) =~= vv);
        assert forall|a: int, b: int| 0 <= a < b < rv.len() implies #[trigger] rv[a] != #[trigger] rv[b] by {
            crate::order::lemma_seq_lt_irreflexive(rv[a]);
        }
        assert forall|x: Set<Label>| sets_of(rv).contains(x) <==> sets_of(vv).contains(x) by {
            if sets_of(rv).contains(x) {
                let q = choose|q: int| 0 <= q < rv.len() && #[trigger] rv[q].to_set() == x;
                assert(rv.to_set().contains(rv[q]));
                let p = choose|p: int| 0 <= p < vv.len() && vv[p] == rv[q];
                assert(vv[p].to_set() == x);
            }
            if sets_of(vv).contains(x) {
                let q = choose|q: int| 0 <= q < vv.len() && #[trigger] vv[q].to_set() == x;
                assert(vv.to_set().contains(vv[q]));
                let p = choose|p: int| 0 <= p < rv.len() && rv[p] == vv[q];
                assert(rv[p].to_set() == x);
            }
        }
        assert(sets_of(rv) =~= sets_of(vv));
    }
    r
}

/// The entries of `all` that hold no other entry, in increasing order of
/// label sequences.
pub fn minimal_of(all: &Vec<Vec<Label>>) -> (r: Vec<Vec<Label>>)
    requires
        distinct_sorted(vecs_view(all@)),
    ensures
        distinct_sorted(vecs_view(r@)),
        lex_sorted(vecs_view(r@)),
        sets_of(vecs_view(r@)) == minimal_sets(sets_of(vecs_view(all@))),
{
    let ghost av = vecs_view(all@);
    let ghost full = sets_of(av);
    let mut kept: Vec<Vec<Label>> = Vec::new();
    let mut i: usize = 0;
    while i < all.len()
        invariant
            i <= all@.len(),
            av == vecs_view(all@),
            full == sets_of(av),
            distinct_sorted(av),
            distinct_sorted(vecs_view(kept@)),
            sets_of(vecs_view(kept@)) == Set::new(|s: Set<Label>| exists|q: int| 0 <= q < i && #[trigger] av[q].to_set() == s)
                .intersect(minimal_sets(full)),
            forall|q: int| 0 <= q < kept@.len() ==> av.subrange(0, i as int).contains(#[trigger] vecs_view(kept@)[q]),
        decreases all@.len() - i,
    {
        let gi = Group(copy_labels(&all[i]));
        assert(gi@ == av[i as int]);
        let mut minimal = true;
        let mut j: usize = 0;
        while j < all.len()
            invariant
                j <= all@.len(),
                i < all@.len(),
                av == vecs_view(all@),
                gi@ == av[i as int],
                distinct_sorted(av),
                minimal <==> forall|q: int| 0 <= q < j && q != i ==> !(#[trigger] av[q]).to_set().subset_of(av[i as int].to_set()),
            decreases all@.len() - j,
        {
            if j != i {
                let gj = Group(copy_labels(&all[j]));
                assert(gj@ == av[j as int]);
                if gi.is_superset(&gj) {
                    minimal = false;
                }
            }
            j += 1;
        }
        let ghost si = av[i as int].to_set();
        proof {
            assert(full.contains(si));
            if minimal {
                assert forall|t: Set<Label>| #[trigger] full.contains(t) && t.subset_of(si) implies t == si by {
                    let q = choose|q: int| 0 <= q < av.len() && #[trigger] av[q].to_set() == t;
                    if q != i {
                        assert(!av[q].to_set().subset_of(si));
                    }
                }
                assert(is_minimal_in(full, si));
            } else {
                let q = choose|q: int| 0 <= q < all@.len() && q != i && (#[trigger] av[q]).to_set().subset_of(av[i as int].to_set());
                lemma_distinct_sets(av, q, i as int);
                assert(full.contains(av[q].to_set()));
                assert(!is_minimal_in(full, si));
            }
        }
        let ghost before = sets_of(vecs_view(kept@));
        let ghost kv = vecs_view(kept@);
        if minimal {
            let x = copy_labels(&all[i]);
            proof {
                assert(!kv.contains(x@)) by {
                    if kv.contains(x@) {
                        let q = choose|q: int| 0 <= q < kv.len() && kv[q] == x@;
                        assert(av.subrange(0, i as int).contains(kv[q]));
                        let p = choose|p: int| 0 <= p < i && av.subrange(0, i as int)[p] == kv[q];
                        assert(av[p] == av[i as int]);
                    }
                }
            }
            add_unique(&mut kept, x);
            proof {
                assert(vecs_view(kept@) =~= kv.push(av[i as int]));
                assert forall|q: int| 0 <= q < kept@.len() implies av.subrange(0, i + 1).contains(#[trigger] vecs_view(kept@)[q]) by {
                    if q < kv.len() {
                        let p = choose|p: int| 0 <= p < i && av.subrange(0, i as int)[p] == kv[q];
                        assert(av.subrange(0, i + 1)[p] == kv[q]);
                    } else {
                        assert(av.subrange(0, i + 1)[i as int] == av[i as int]);
                    }
                }
            }
        } else {
            proof {
                assert forall|q: int| 0 <= q < kept@.len() implies av.subrange(0, i + 1).contains(#[trigger] vecs_view(kept@)[q]) by {
                    let p = choose|p: int| 0 <= p < i && av.subrange(0, i as int)[p] == kv[q];
                    assert(av.subrange(0, i + 1)[p] == kv[q]);
                }
            }
        }
        proof {
            let prev = Set::new(|s: Set<Label>| exists|q: int| 0 <= q < i && #[trigger] av[q].to_set() == s);
            let now = Set::new(|s: Set<Label>| exists|q: int| 0 <= q < i + 1 && #[trigger] av[q].to_set() == s);
            assert forall|x: Set<Label>| now.contains(x) <==> prev.insert(si).contains(x) by {
                if now.contains(x) {
                    let q = choose|q: int| 0 <= q < i + 1 && #[trigger] av[q].to_set() == x;
                    if q < i {
                        assert(prev.contains(x));
                    }
                }
                if prev.contains(x) {
                    let q = choose|q: int| 0 <= q < i && #[trigger] av[q].to_set() == x;
                    assert(now.contains(x));
                }
                if x == si {
                    assert(now.contains(x));
                }
            }
            assert(now =~= prev.insert(si));
            let ms = minimal_sets(full);
            if minimal {
                assert(ms.contains(si));
                assert(now.intersect(ms) =~= prev.intersect(ms).insert(si));
            } else {
                assert(!ms.contains(si));
                assert(now.intersect(ms) =~= prev.intersect(ms));
            }
        }
        i += 1;
    }
    proof {
        let prev = Set::new(|s: Set<Label>| exists|q: int| 0 <= q < av.len() && #[trigger] av[q].to_set() == s);
        assert(prev =~= full);
        assert forall|s: Set<Label>| minimal_sets(full).contains(s) implies full.contains(s) by {}
        assert(prev.intersect(minimal_sets(full)) =~= minimal_sets(full));
    }
    sort_label_vecs(&kept)
}

/// The distinct sets of labels taken by the choices on the lines of `lines`,
/// in the order in which they first arise.
fn choices_of_lines(lines: &Vec<Line>) -> (r: Vec<Vec<Label>>)
    ensures
        distinct_sorted(vecs_view(r@)),
        sets_of(vecs_view(r@)) == all_choice_sets(crate::constraint::lines_view(lines@)),
{
    let ghost ls = crate::constraint::lines_view(lines@);
    let mut r: Vec<Vec<Label>> = Vec::new();
    let mut i: usize = 0;
    proof {
        assert(sets_of(vecs_view(r@)) =~= Set::<Set<Label>>::empty());
    }
    while i < lines.len()
        invariant
            i <= lines@.len(),
            ls == crate::constraint::lines_view(lines@),
            distinct_sorted(vecs_view(r@)),
            sets_of(vecs_view(r@)) == all_choice_sets(ls.subrange(0, i as int)),
        decreases lines@.len() - i,
    {
        let gs = lines[i].groups();
        assert(ls[i as int] == lines@[i as int]@);
        let cs = choices_of_groups(&gs);
        let ghost cv = vecs_view(cs@);
        let ghost start = sets_of(vecs_view(r@));
        let mut j: usize = 0;
        while j < cs.len()
            invariant
                j <= cs@.len(),
                cv == vecs_view(cs@),
                distinct_sorted(cv),
                distinct_sorted(vecs_view(r@)),
                sets_of(vecs_view(r@)) == start.union(sets_of(cv.subrange(0, j as int))),
            decreases cs@.len() - j,
        {
            let x = copy_labels(&cs[j]);
            assert(x@ == cv[j as int]);
            add_unique(&mut r, x);
            proof {
                let a = cv.subrange(0, j as int);
                let b = cv.subrange(0, j + 1);
                assert(b =~= a.push(cv[j as int]));
                assert forall|y: Set<Label>| sets_of(b).contains(y) <==> sets_of(a).insert(cv[j as int].to_set()).contains(y) by {
                    if sets_of(b).contains(y) {
                        let q = choose|q: int| 0 <= q < b.len() && #[trigger] b[q].to_set() == y;
                        if q < a.len() {
                            assert(a[q] == b[q]);
                        }
                    }
                    if sets_of(a).contains(y) {
                        let q = choose|q: int| 0 <= q < a.len() && #[trigger] a[q].to_set() == y;
                        assert(b[q] == a[q]);
                    }
                    if y == cv[j as int].to_set() {
                        assert(b[j as int] == cv[j as int]);
                    }
                }
                assert(sets_of(b) =~= sets_of(a).insert(cv[j as int].to_set()));
            }
            j += 1;
        }
        proof {
            assert(cv.subrange(0, cv.len() as int) =~= cv);
            let gv = gs@.map_values(|g: Group| g@);
            assert(gv == line_groups(ls[i as int]));
            let a = ls.subrange(0, i as int);
            let b = ls.subrange(0, i + 1);
            assert forall|y: Set<Label>| all_choice_sets(b).contains(y) <==> all_choice_sets(a).union(choice_sets(gv)).contains(y) by {
                if all_choice_sets(b).contains(y) {
                    let q = choose|q: int| 0 <= q < b.len() && #[trigger] choice_sets(line_groups(b[q])).contains(y);
                    if q < a.len() {
                        assert(a[q] == b[q]);
                        assert(all_choice_sets(a).contains(y));
                    } else {
                        assert(b[q] == ls[i as int]);
                    }
                }
                if all_choice_sets(a).contains(y) {
                    let q = choose|q: int| 0 <= q < a.len() && #[trigger] choice_sets(line_groups(a[q])).contains(y);
                    assert(b[q] == a[q]);
                    assert(all_choice_sets(b).contains(y));
                }
                if choice_sets(gv).contains(y) {
                    assert(b[i as int] == ls[i as int]);
                    assert(all_choice_sets(b).contains(y));
                }
            }
            assert(all_choice_sets(b) =~= all_choice_sets(a).union(choice_sets(gv)));
        }
        i += 1;
    }
    assert(ls.subrange(0, ls.len() as int) =~= ls);
    r
}

impl Line {
    /// The sets of labels that take one label of each group of the line and
    /// hold no other such set, in increasing order of label sequences.
    pub fn minimal_sets_of_all_choices(&self) -> (r: Vec<Vec<Label>>)
        ensures
            distinct_sorted(vecs_view(r@)),
            lex_sorted(vecs_view(r@)),
            sets_of(vecs_view(r@)) == minimal_sets(choice_sets(line_groups(self@))),
    {
        let gs = self.groups();
        let all = choices_of_groups(&gs);
        minimal_of(&all)
    }
}

impl Constraint {
    /// The distinct sets of labels that take one label of each group of some
    /// line, in the order in which the lines give them.
    pub fn sets_of_all_choices(&self) -> (r: Vec<Group>)
        ensures
            forall|i: int| 0 <= i < r@.len() ==> (#[trigger] r@[i]).wf(),
            forall|i: int, j: int| 0 <= i < j < r@.len() ==> #[trigger] r@[i]@ != #[trigger] r@[j]@,
            sets_of(r@.map_values(|g: Group| g@)) == all_choice_sets(self@),
    {
        let all = choices_of_lines(&self.lines);
        let ghost av = vecs_view(all@);
        let mut r: Vec<Group> = Vec::new();
        let mut i: usize = 0;
        while i < all.len()
            invariant
                i <= all@.len(),
                av == vecs_view(all@),
                r@.map_values(|g: Group| g@) == av.subrange(0, i as int),
            decreases all@.len() - i,
        {
            let g = Group(copy_labels(&all[i]));
            let ghost before = r@;
            r.push(g);
            proof {
                assert(r@.map_values(|g: Group| g@) =~= before.map_values(|g: Group| g@).push(av[i as int]));
                assert(av.subrange(0, i + 1) =~= av.subrange(0, i as int).push(av[i as int]));
            }
            i += 1;
        }
        proof {
            assert(av.subrange(0, av.len() as int) =~= av);
            let rv = r@.map_values(|g: Group| g@);
            assert forall|q: int| 0 <= q < r@.len() implies (#[trigger] r@[q]).wf() by {
                assert(rv[q] == r@[q]@);
            }
            assert forall|a: int, b: int| 0 <= a < b < r@.len() implies #[trigger] r@[a]@ != #[trigger] r@[b]@ by {
                assert(rv[a] == r@[a]@ && rv[b] == r@[b]@);
            }
        }
        r
    }

    /// The sets of labels that take one label of each group of some line and
    /// hold no other such set, in increasing order of label sequences.
    pub fn minimal_sets_of_all_choices(&self) -> (r: Vec<Vec<Label>>)
        ensures
            distinct_sorted(vecs_view(r@)),
            lex_sorted(vecs_view(r@)),
            sets_of(vecs_view(r@)) == minimal_sets(all_choice_sets(self@)),
    {
        let all = choices_of_lines(&self.lines);
        minimal_of(&all)
    }
}

} // verus!
