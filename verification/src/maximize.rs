use vstd::prelude::*;

use crate::constraint::lines_view;
use crate::group::{strictly_sorted, Group, GroupType, Label};
use crate::constraint::{add_line_spec, chain_included, covered_by, included, lemma_add_line_covers, lines_wf, not_included_by, Constraint};
use crate::line::{degree_spec, degree_without_star_spec, has_star_spec, normalized_from, parts_wf, Degree, MAX_PARTS};
use crate::pairing::{suffix_total, total, Pairings};
use crate::line::{Line, PartV};
use crate::order::parts_view;
use crate::part::Part;

verus! {

/// How a part of a combined line was obtained from the parts of two lines.
#[derive(PartialEq, Eq, Structural, PartialOrd, Ord, Debug, Copy, Clone, Hash)]
pub enum Operation {
    Union,
    Intersection,
}

/// The parts of a line with one occurrence of part `i` taken out: its
/// exponent goes down by one; a starred part stays.
pub open spec fn minus_one(ps: Seq<PartV>, i: int) -> Seq<PartV> {
    ps.update(i, match ps[i].0 {
        GroupType::Many(x) => (GroupType::Many((x - 1) as u8), ps[i].1),
        GroupType::Star => ps[i],
    })
}

/// For each line, the lines obtained by taking out one occurrence of each of
/// its parts in turn.
pub fn without_one(lines: &Vec<Line>) -> (r: Vec<Vec<Line>>)
    requires
        forall|k: int, i: int| 0 <= k < lines@.len() && 0 <= i < lines@[k]@.len() ==> (#[trigger] lines@[k]@[i]).0 != GroupType::Many(0),
    ensures
        r@.len() == lines@.len(),
        forall|k: int| 0 <= k < r@.len() ==> (#[trigger] r@[k])@.len() == lines@[k]@.len(),
        forall|k: int, i: int| 0 <= k < r@.len() && 0 <= i < r@[k]@.len() ==> (#[trigger] r@[k]@[i])@ == minus_one(lines@[k]@, i),
{
    let mut result: Vec<Vec<Line>> = Vec::new();
    let mut k: usize = 0;
    while k < lines.len()
        invariant
            k <= lines@.len(),
            forall|k: int, i: int| 0 <= k < lines@.len() && 0 <= i < lines@[k]@.len() ==> (#[trigger] lines@[k]@[i]).0 != GroupType::Many(0),
            result@.len() == k,
            forall|q: int| 0 <= q < k ==> (#[trigger] result@[q])@.len() == lines@[q]@.len(),
            forall|q: int, i: int| 0 <= q < k && 0 <= i < result@[q]@.len() ==> (#[trigger] result@[q]@[i])@ == minus_one(lines@[q]@, i),
        decreases lines@.len() - k,
    {
        let line = &lines[k];
        let mut current: Vec<Line> = Vec::new();
        let mut i: usize = 0;
        while i < line.parts.len()
            invariant
                k < lines@.len(),
                line == &lines@[k as int],
                forall|i: int| 0 <= i < line@.len() ==> (#[trigger] line@[i]).0 != GroupType::Many(0),
                i <= line@.len(),
                current@.len() == i,
                forall|q: int| 0 <= q < i ==> (#[trigger] current@[q])@ == minus_one(line@, q),
            decreases line@.len() - i,
        {
            let mut parts: Vec<Part> = Vec::new();
            let mut j: usize = 0;
            while j < line.parts.len()
                invariant
                    i < line@.len(),
                    j <= line@.len(),
                    forall|i: int| 0 <= i < line@.len() ==> (#[trigger] line@[i]).0 != GroupType::Many(0),
                    parts_view(parts@) == minus_one(line@, i as int).subrange(0, j as int),
                decreases line@.len() - j,
            {
                let p = &line.parts[j];
                let np = if j == i {
                    match p.gtype {
                        GroupType::Many(x) => Part { gtype: GroupType::Many(x - 1), group: p.group.duplicate() },
                        GroupType::Star => p.duplicate(),
                    }
                } else {
                    p.duplicate()
                };
                let ghost before = parts@;
                parts.push(np);
                j += 1;
                assert(parts_view(parts@) =~= parts_view(before).push(np@));
                assert(parts_view(parts@) =~= minus_one(line@, i as int).subrange(0, j as int));
            }
            let nl = Line { parts };
            assert(nl@ =~= minus_one(line@, i as int));
            current.push(nl);
            i += 1;
        }
        result.push(current);
        k += 1;
    }
    result
}


/// Whether two lines have the same parts in the same order.
pub fn lines_equal(a: &Line, b: &Line) -> (r: bool)
    ensures
        r == (a@ == b@),
{
    if a.parts.len() != b.parts.len() {
        return false;
    }
    let mut i: usize = 0;
    while i < a.parts.len()
        invariant
            i <= a@.len(),
            a@.len() == b@.len(),
            forall|q: int| 0 <= q < i ==> a@[q] == b@[q],
        decreases a@.len() - i,
    {
        if a.parts[i].gtype != b.parts[i].gtype || !a.parts[i].group.same_as(&b.parts[i].group) {
            assert(a@[i as int] != b@[i as int]);
            return false;
        }
        i += 1;
    }
    assert(a@ =~= b@);
    true
}

/// The position of a line equal to `l` in `seen`, if there is one.
pub fn find_line(seen: &Vec<Line>, l: &Line) -> (r: Option<usize>)
    ensures
        match r {
            Some(i) => i < seen@.len() && seen@[i as int]@ == l@,
            None => !lines_view(seen@).contains(l@),
        },
{
    let mut i: usize = 0;
    while i < seen.len()
        invariant
            i <= seen@.len(),
            forall|q: int| 0 <= q < i ==> seen@[q]@ != l@,
        decreases seen@.len() - i,
    {
        if lines_equal(&seen[i], l) {
            return Some(i);
        }
        i += 1;
    }
    proof {
        if lines_view(seen@).contains(l@) {
            let q = choose|q: int| 0 <= q < lines_view(seen@).len() && lines_view(seen@)[q] == l@;
            assert(seen@[q]@ == l@);
        }
    }
    None
}

/// The pair `(i, j)` of parts of `a` and `b` gives the union `u`: neither of
/// the two groups holds the other, and `u` holds the labels of both.
pub open spec fn union_pair(a: Seq<PartV>, b: Seq<PartV>, u: Seq<crate::group::Label>, p: (usize, usize)) -> bool {
    &&& p.0 < a.len()
    &&& p.1 < b.len()
    &&& u.to_set() == a[p.0 as int].1.to_set().union(b[p.1 as int].1.to_set())
    &&& !b[p.1 as int].1.to_set().subset_of(a[p.0 as int].1.to_set())
    &&& !a[p.0 as int].1.to_set().subset_of(b[p.1 as int].1.to_set())
}

/// The groups of the pair of parts `p` hold those of the pair `q`.
pub open spec fn holds_pair(a: Seq<PartV>, b: Seq<PartV>, p: (usize, usize), q: (usize, usize)) -> bool {
    &&& a[q.0 as int].1.to_set().subset_of(a[p.0 as int].1.to_set())
    &&& b[q.1 as int].1.to_set().subset_of(b[p.1 as int].1.to_set())
}

/// No pair of the list holds the groups of another pair of the list.
pub open spec fn pair_antichain(a: Seq<PartV>, b: Seq<PartV>, s: Seq<(usize, usize)>) -> bool {
    forall|x: int, y: int| 0 <= x < s.len() && 0 <= y < s.len() && x != y ==> !holds_pair(a, b, #[trigger] s[x], #[trigger] s[y])
}

/// Parts `i` of `a` and `j` of `b` exist, and neither group holds the other.
pub open spec fn not_nested(a: Seq<PartV>, b: Seq<PartV>, i: int, j: int) -> bool {
    &&& 0 <= i < a.len()
    &&& 0 <= j < b.len()
    &&& !b[j].1.to_set().subset_of(a[i].1.to_set())
    &&& !a[i].1.to_set().subset_of(b[j].1.to_set())
}

/// Entry `u` is the union of parts `i` and `j`, and lists the pair or a
/// pair whose groups the pair holds.
pub open spec fn union_covers(a: Seq<PartV>, b: Seq<PartV>, r: Seq<(Seq<Label>, Seq<(usize, usize)>)>, u: int, i: int, j: int) -> bool {
    &&& 0 <= u < r.len()
    &&& r[u].0.to_set() == a[i].1.to_set().union(b[j].1.to_set())
    &&& (r[u].1.contains((i as usize, j as usize))
        || exists|y: int| 0 <= y < r[u].1.len() && holds_pair(a, b, (i as usize, j as usize), #[trigger] r[u].1[y]))
}

/// The view of the unions with their pairs.
pub open spec fn unions_view(v: Seq<(Group, Vec<(usize, usize)>)>) -> Seq<(Seq<Label>, Seq<(usize, usize)>)> {
    v.map_values(|e: (Group, Vec<(usize, usize)>)| (e.0@, e.1@))
}

/// The pairs of `s`, in order, whose groups do not hold those of `q`.
pub open spec fn not_holding(a: Seq<PartV>, b: Seq<PartV>, s: Seq<(usize, usize)>, q: (usize, usize)) -> Seq<(usize, usize)>
    decreases s.len(),
{
    if s.len() == 0 {
        s
    } else if holds_pair(a, b, s.last(), q) {
        not_holding(a, b, s.drop_last(), q)
    } else {
        not_holding(a, b, s.drop_last(), q).push(s.last())
    }
}

/// What stays of a list when pairs holding `q` go: pairs of the list, in
/// order, none holding `q`; every pair of the list that does not hold `q`
/// stays; an antichain stays one; nothing goes when nothing holds `q`.
proof fn lemma_not_holding(a: Seq<PartV>, b: Seq<PartV>, s: Seq<(usize, usize)>, q: (usize, usize))
    ensures
        forall|x: int| 0 <= x < not_holding(a, b, s, q).len() ==> s.contains(#[trigger] not_holding(a, b, s, q)[x])
            && !holds_pair(a, b, not_holding(a, b, s, q)[x], q),
        forall|x: int| 0 <= x < s.len() && !holds_pair(a, b, #[trigger] s[x], q) ==> not_holding(a, b, s, q).contains(s[x]),
        pair_antichain(a, b, s) ==> pair_antichain(a, b, not_holding(a, b, s, q)),
        not_holding(a, b, s, q).len() <= s.len(),
        not_holding(a, b, s, q).len() == s.len() ==> not_holding(a, b, s, q) == s,
        (forall|x: int| 0 <= x < s.len() ==> !holds_pair(a, b, #[trigger] s[x], q)) ==> not_holding(a, b, s, q) == s,
    decreases s.len(),
{
    if s.len() > 0 {
        let s2 = s.drop_last();
        lemma_not_holding(a, b, s2, q);
        let f2 = not_holding(a, b, s2, q);
        let f = not_holding(a, b, s, q);
        let l = s.len() - 1;
        assert forall|x: int| 0 <= x < f.len() implies s.contains(#[trigger] f[x]) && !holds_pair(a, b, f[x], q) by {
            if x < f2.len() {
                assert(f[x] == f2[x]);
                let w = choose|w: int| 0 <= w < s2.len() && s2[w] == f2[x];
                assert(s[w] == f2[x]);
            } else {
                assert(f[x] == s[l]);
            }
        }
        assert forall|x: int| 0 <= x < s.len() && !holds_pair(a, b, #[trigger] s[x], q) implies f.contains(s[x]) by {
            if x < l {
                assert(s2[x] == s[x]);
                let w = choose|w: int| 0 <= w < f2.len() && f2[w] == s[x];
                assert(f[w] == s[x]);
            } else {
                assert(f[f.len() - 1] == s[x]);
            }
        }
        if pair_antichain(a, b, s) {
            assert(pair_antichain(a, b, s2)) by {
                assert forall|x: int, y: int| 0 <= x < s2.len() && 0 <= y < s2.len() && x != y implies !holds_pair(a, b, #[trigger] s2[x], #[trigger] s2[y]) by {
                    assert(s2[x] == s[x] && s2[y] == s[y]);
                }
            }
            if !holds_pair(a, b, s.last(), q) {
                assert forall|x: int, y: int| 0 <= x < f.len() && 0 <= y < f.len() && x != y implies !holds_pair(a, b, #[trigger] f[x], #[trigger] f[y]) by {
                    if x < f2.len() && y < f2.len() {
                        assert(f[x] == f2[x] && f[y] == f2[y]);
                    } else if x < f2.len() {
                        assert(f[x] == f2[x] && f[y] == s[l]);
                        let w = choose|w: int| 0 <= w < s2.len() && s2[w] == f2[x];
                        assert(s[w] == f[x]);
                    } else {
                        assert(f[y] == f2[y] && f[x] == s[l]);
                        let w = choose|w: int| 0 <= w < s2.len() && s2[w] == f2[y];
                        assert(s[w] == f[y]);
                    }
                }
            }
        }
        if f.len() == s.len() {
            if holds_pair(a, b, s.last(), q) {
                assert(false);
            }
            assert(f2 == s2);
            assert(f =~= s);
        }
        if forall|x: int| 0 <= x < s.len() ==> !holds_pair(a, b, #[trigger] s[x], q) {
            assert forall|x: int| 0 <= x < s2.len() implies !holds_pair(a, b, #[trigger] s2[x], q) by {
                assert(s2[x] == s[x]);
            }
            assert(!holds_pair(a, b, s[l], q));
            assert(f =~= s);
        }
    } else {
        assert(not_holding(a, b, s, q) == s);
    }
}

/// Updating the list of a union with a new pair `q`: the pairs holding `q`
/// go, and `q` comes in when some went or it holds no remaining pair.
proof fn lemma_update_list(a: Seq<PartV>, b: Seq<PartV>, s: Seq<(usize, usize)>, q: (usize, usize), n: Seq<(usize, usize)>)
    requires
        pair_antichain(a, b, s),
        n == (if not_holding(a, b, s, q).len() != s.len()
            || (forall|t: int| 0 <= t < not_holding(a, b, s, q).len() ==> !holds_pair(a, b, q, #[trigger] not_holding(a, b, s, q)[t])) {
            not_holding(a, b, s, q).push(q)
        } else {
            not_holding(a, b, s, q)
        }),
    ensures
        pair_antichain(a, b, n),
        n.len() > 0,
        n.contains(q) || exists|y: int| 0 <= y < n.len() && holds_pair(a, b, q, #[trigger] n[y]),
        forall|p: (usize, usize)| (s.contains(p) || exists|y: int| 0 <= y < s.len() && holds_pair(a, b, p, #[trigger] s[y]))
            ==> (n.contains(p) || exists|y: int| 0 <= y < n.len() && holds_pair(a, b, p, #[trigger] n[y])),
{
    lemma_not_holding(a, b, s, q);
    let k = not_holding(a, b, s, q);
    let changed = k.len() != s.len();
    let add = changed || (forall|t: int| 0 <= t < k.len() ==> !holds_pair(a, b, q, #[trigger] k[t]));
    if changed {
        // Some pair holding `q` went.
        if forall|x: int| 0 <= x < s.len() ==> !holds_pair(a, b, #[trigger] s[x], q) {
            assert(k == s);
        }
        let g = choose|x: int| 0 <= x < s.len() && holds_pair(a, b, #[trigger] s[x], q);
        // `q` holds no remaining pair: that pair would be held by `s[g]`.
        assert forall|t: int| 0 <= t < k.len() implies !holds_pair(a, b, q, #[trigger] k[t]) by {
            if holds_pair(a, b, q, k[t]) {
                assert(s.contains(k[t]));
                let w = choose|w: int| 0 <= w < s.len() && s[w] == k[t];
                assert(holds_pair(a, b, s[g], s[w]));
                if w == g {
                    assert(holds_pair(a, b, k[t], q));
                }
            }
        }
    }
    if add {
        assert(n[n.len() - 1] == q);
        assert forall|x: int, y: int| 0 <= x < n.len() && 0 <= y < n.len() && x != y implies !holds_pair(a, b, #[trigger] n[x], #[trigger] n[y]) by {
            if x < k.len() && y < k.len() {
                assert(n[x] == k[x] && n[y] == k[y]);
            } else if x < k.len() {
                assert(n[x] == k[x]);
            } else {
                assert(n[y] == k[y]);
                if holds_pair(a, b, q, k[y]) {
                    assert(!changed);
                }
            }
        }
    } else {
        let t0 = choose|t: int| 0 <= t < k.len() && holds_pair(a, b, q, #[trigger] k[t]);
        assert(n[t0] == k[t0]);
    }
    assert forall|p: (usize, usize)| (s.contains(p) || exists|y: int| 0 <= y < s.len() && holds_pair(a, b, p, #[trigger] s[y]))
        implies (n.contains(p) || exists|y: int| 0 <= y < n.len() && holds_pair(a, b, p, #[trigger] n[y])) by {
        let d = if s.contains(p) {
            choose|y: int| 0 <= y < s.len() && s[y] == p
        } else {
            choose|y: int| 0 <= y < s.len() && holds_pair(a, b, p, #[trigger] s[y])
        };
        assert(holds_pair(a, b, p, s[d]));
        if !holds_pair(a, b, s[d], q) {
            assert(k.contains(s[d]));
            let w = choose|w: int| 0 <= w < k.len() && k[w] == s[d];
            assert(n[w] == k[w]);
        } else {
            assert(changed) by {
                if !changed {
                    assert(k == s);
                    assert(!holds_pair(a, b, s[d], q));
                }
            }
            assert(n[n.len() - 1] == q);
            assert(holds_pair(a, b, p, q));
        }
    }
}

/// The unions of a group of `l1` with a group of `l2` when neither holds the
/// other, each with pairs of parts that give it: a pair is dropped when a
/// later pair has groups within its groups, and a pair is added unless an
/// earlier pair has groups within its groups. So every union of two parts
/// neither of which holds the other is listed, with that pair or a pair whose
/// groups it holds, and no listed pair holds another of its union.
fn good_unions(l1: &Line, l2: &Line) -> (r: Vec<(Group, Vec<(usize, usize)>)>)
    requires
        l1.wf(),
        l2.wf(),
    ensures
        forall|u: int| 0 <= u < r@.len() ==> (#[trigger] r@[u]).0.wf(),
        forall|u: int, k: int| 0 <= u < r@.len() && 0 <= k < r@[u].1@.len() ==>
            union_pair(l1@, l2@, r@[u].0@, #[trigger] r@[u].1@[k]),
        forall|u: int, w: int| 0 <= u < w < r@.len() ==> (#[trigger] r@[u]).0@ != (#[trigger] r@[w]).0@,
        forall|u: int| 0 <= u < r@.len() ==> (#[trigger] r@[u]).1@.len() > 0 && pair_antichain(l1@, l2@, r@[u].1@),
        forall|i: int, j: int| #[trigger] not_nested(l1@, l2@, i, j) ==>
            exists|u: int| #[trigger] union_covers(l1@, l2@, unions_view(r@), u, i, j),
{
    let s1 = l1.groups();
    let s2 = l2.groups();
    let ghost a = l1@;
    let ghost b = l2@;
    let mut unions: Vec<(Group, Vec<(usize, usize)>)> = Vec::new();
    assert(s1@.len() == s1@.map_values(|g: Group| g@).len());
    assert(s2@.len() == s2@.map_values(|g: Group| g@).len());
    let mut i: usize = 0;
    while i < s1.len()
        invariant
            i <= s1@.len(),
            s1@.map_values(|g: Group| g@) == a.map_values(|p: PartV| p.1),
            s2@.map_values(|g: Group| g@) == b.map_values(|p: PartV| p.1),
            s1@.len() == a.len(),
            s2@.len() == b.len(),
            a == l1@,
            b == l2@,
            l1.wf(),
            l2.wf(),
            forall|u: int| 0 <= u < unions@.len() ==> (#[trigger] unions@[u]).0.wf(),
            forall|u: int, k: int| 0 <= u < unions@.len() && 0 <= k < unions@[u].1@.len() ==>
                union_pair(a, b, unions@[u].0@, #[trigger] unions@[u].1@[k]),
            forall|u: int, w: int| 0 <= u < w < unions@.len() ==> (#[trigger] unions@[u]).0@ != (#[trigger] unions@[w]).0@,
            forall|u: int| 0 <= u < unions@.len() ==> (#[trigger] unions@[u]).1@.len() > 0 && pair_antichain(a, b, unions@[u].1@),
            forall|i2: int, j2: int| #[trigger] not_nested(a, b, i2, j2) && i2 < i ==>
                exists|u: int| #[trigger] union_covers(a, b, unions_view(unions@), u, i2, j2),
        decreases s1@.len() - i,
    {
        let mut j: usize = 0;
        while j < s2.len()
            invariant
                i < s1@.len(),
                j <= s2@.len(),
                s1@.map_values(|g: Group| g@) == a.map_values(|p: PartV| p.1),
                s2@.map_values(|g: Group| g@) == b.map_values(|p: PartV| p.1),
                s1@.len() == a.len(),
                s2@.len() == b.len(),
                a == l1@,
                b == l2@,
                l1.wf(),
                l2.wf(),
                forall|u: int| 0 <= u < unions@.len() ==> (#[trigger] unions@[u]).0.wf(),
                forall|u: int, k: int| 0 <= u < unions@.len() && 0 <= k < unions@[u].1@.len() ==>
                    union_pair(a, b, unions@[u].0@, #[trigger] unions@[u].1@[k]),
                forall|u: int, w: int| 0 <= u < w < unions@.len() ==> (#[trigger] unions@[u]).0@ != (#[trigger] unions@[w]).0@,
                forall|u: int| 0 <= u < unions@.len() ==> (#[trigger] unions@[u]).1@.len() > 0 && pair_antichain(a, b, unions@[u].1@),
                forall|i2: int, j2: int| #[trigger] not_nested(a, b, i2, j2) && (i2 < i || (i2 == i && j2 < j)) ==>
                    exists|u: int| #[trigger] union_covers(a, b, unions_view(unions@), u, i2, j2),
            decreases s2@.len() - j,
        {
            proof {
                assert(s1@[i as int]@ == s1@.map_values(|g: Group| g@)[i as int]);
                assert(s2@[j as int]@ == s2@.map_values(|g: Group| g@)[j as int]);
                assert(a.map_values(|p: PartV| p.1)[i as int] == a[i as int].1);
                assert(b.map_values(|p: PartV| p.1)[j as int] == b[j as int].1);
            }
            let x = &s1[i];
            let y = &s2[j];
            if x.is_superset(y) || y.is_superset(x) {
                proof {
                    assert forall|i2: int, j2: int| #[trigger] not_nested(a, b, i2, j2) && (i2 < i || (i2 == i && j2 < j + 1)) implies
                        exists|u: int| #[trigger] union_covers(a, b, unions_view(unions@), u, i2, j2) by {
                        if i2 == i && j2 == j {
                            assert(false);
                        }
                    }
                }
                j += 1;
                continue;
            }
            assert(x.wf() && y.wf());
            let u = x.union(y);
            let ghost u0 = unions@;
            let mut pos: usize = 0;
            while pos < unions.len() && !unions[pos].0.same_as(&u)
                invariant
                    pos <= unions@.len(),
                    forall|q: int| 0 <= q < pos ==> unions@[q].0@ != u@,
                decreases unions@.len() - pos,
            {
                pos += 1;
            }
            if pos == unions.len() {
                let ghost before = unions@;
                unions.push((u.duplicate(), Vec::new()));
                proof {
                    assert forall|uu: int, w: int| 0 <= uu < w < unions@.len() implies (#[trigger] unions@[uu]).0@ != (#[trigger] unions@[w]).0@ by {
                        if w == before.len() {
                            assert(before[uu].0@ != u@);
                        } else {
                            assert(unions@[uu] == before[uu] && unions@[w] == before[w]);
                        }
                    }
                    assert forall|uu: int, k: int| 0 <= uu < unions@.len() && 0 <= k < unions@[uu].1@.len() implies
                        union_pair(a, b, unions@[uu].0@, #[trigger] unions@[uu].1@[k]) by {
                        assert(uu < before.len());
                        assert(unions@[uu] == before[uu]);
                    }
                }
            }
            let ghost u1 = unions@;
            proof {
                assert forall|uu: int| 0 <= uu < u0.len() implies #[trigger] u1[uu] == u0[uu] by {}
                assert(unions_view(u1).len() == u1.len());
            }
            let ghost ug = unions@[pos as int].0@;
            assert(ug == u@);
            let ghost nq: (usize, usize) = (i, j);
            let ghost list = unions@[pos as int].1@;
            proof {
                if pos < u0.len() {
                    assert(pair_antichain(a, b, list));
                } else {
                    assert(list.len() == 0);
                }
            }
            let mut kept: Vec<(usize, usize)> = Vec::new();
            let mut k: usize = 0;
            while k < unions[pos].1.len()
                invariant
                    pos < unions@.len(),
                    list == unions@[pos as int].1@,
                    k <= list.len(),
                    forall|q: int| 0 <= q < list.len() ==> union_pair(a, b, ug, #[trigger] list[q]),
                    kept@ == not_holding(a, b, list.subrange(0, k as int), nq),
                    nq == (i, j),
                    s1@.map_values(|g: Group| g@) == a.map_values(|p: PartV| p.1),
                    s2@.map_values(|g: Group| g@) == b.map_values(|p: PartV| p.1),
                    s1@.len() == a.len(),
                    s2@.len() == b.len(),
                    l1.wf(),
                    l2.wf(),
                    a == l1@,
                    b == l2@,
                    i < s1@.len(),
                    j < s2@.len(),
                    x.wf(),
                    y.wf(),
                    x@ == a[i as int].1,
                    y@ == b[j as int].1,
                decreases list.len() - k,
            {
                let (xc, yc) = unions[pos].1[k];
                assert(union_pair(a, b, ug, list[k as int]));
                proof {
                    assert(s1@[xc as int]@ == s1@.map_values(|g: Group| g@)[xc as int]);
                    assert(s2@[yc as int]@ == s2@.map_values(|g: Group| g@)[yc as int]);
                    assert(a.map_values(|p: PartV| p.1)[xc as int] == a[xc as int].1);
                    assert(b.map_values(|p: PartV| p.1)[yc as int] == b[yc as int].1);
                    assert(list.subrange(0, k + 1).drop_last() =~= list.subrange(0, k as int));
                    assert(list.subrange(0, k + 1).last() == list[k as int]);
                }
                if !(s1[xc].is_superset(x) && s2[yc].is_superset(y)) {
                    kept.push((xc, yc));
                }
                k += 1;
            }
            proof {
                assert(list.subrange(0, list.len() as int) =~= list);
                lemma_not_holding(a, b, list, nq);
            }
            let changed = kept.len() != unions[pos].1.len();
            let mut add = changed;
            if !changed {
                let mut all_miss = true;
                let mut q: usize = 0;
                while q < kept.len()
                    invariant
                        q <= kept@.len(),
                        forall|t: int| 0 <= t < kept@.len() ==> union_pair(a, b, ug, #[trigger] kept@[t]),
                        all_miss <==> forall|t: int| 0 <= t < q ==> !holds_pair(a, b, nq, #[trigger] kept@[t]),
                        nq == (i, j),
                        s1@.map_values(|g: Group| g@) == a.map_values(|p: PartV| p.1),
                        s2@.map_values(|g: Group| g@) == b.map_values(|p: PartV| p.1),
                        s1@.len() == a.len(),
                        s2@.len() == b.len(),
                        l1.wf(),
                        l2.wf(),
                        a == l1@,
                        b == l2@,
                        i < s1@.len(),
                        j < s2@.len(),
                        x.wf(),
                        y.wf(),
                        x@ == a[i as int].1,
                        y@ == b[j as int].1,
                    decreases kept@.len() - q,
                {
                    let (xc, yc) = kept[q];
                    assert(union_pair(a, b, ug, kept@[q as int]));
                    proof {
                        assert(s1@[xc as int]@ == s1@.map_values(|g: Group| g@)[xc as int]);
                        assert(s2@[yc as int]@ == s2@.map_values(|g: Group| g@)[yc as int]);
                        assert(a.map_values(|p: PartV| p.1)[xc as int] == a[xc as int].1);
                        assert(b.map_values(|p: PartV| p.1)[yc as int] == b[yc as int].1);
                    }
                    if x.is_superset(&s1[xc]) && y.is_superset(&s2[yc]) {
                        all_miss = false;
                    }
                    q += 1;
                }
                add = all_miss;
            }
            if add {
                kept.push((i, j));
                proof {
                    assert(union_pair(a, b, ug, (i, j)));
                }
            }
            let ghost nl = kept@;
            proof {
                lemma_update_list(a, b, list, nq, nl);
            }
            let g = unions[pos].0.duplicate();
            let ghost before = unions@;
            unions.set(pos, (g, kept));
            proof {
                assert forall|uu: int, w: int| 0 <= uu < w < unions@.len() implies (#[trigger] unions@[uu]).0@ != (#[trigger] unions@[w]).0@ by {
                    assert(before[uu].0@ == unions@[uu].0@);
                    assert(before[w].0@ == unions@[w].0@);
                }
                assert forall|uu: int| 0 <= uu < unions@.len() implies (#[trigger] unions@[uu]).0.wf() by {
                    assert(before[uu].0@ == unions@[uu].0@);
                }
                assert forall|uu: int, k: int| 0 <= uu < unions@.len() && 0 <= k < unions@[uu].1@.len() implies
                    union_pair(a, b, unions@[uu].0@, #[trigger] unions@[uu].1@[k]) by {
                    if uu != pos {
                        assert(unions@[uu] == before[uu]);
                    }
                }
                assert forall|uu: int| 0 <= uu < unions@.len() implies (#[trigger] unions@[uu]).1@.len() > 0 && pair_antichain(a, b, unions@[uu].1@) by {
                    if uu != pos {
                        assert(unions@[uu] == before[uu]);
                        assert(uu < u0.len());
                        assert(u0[uu] == before[uu]);
                    }
                }
                let vb = unions_view(u0);
                let va = unions_view(unions@);
                assert forall|i2: int, j2: int| #[trigger] not_nested(a, b, i2, j2) && (i2 < i || (i2 == i && j2 < j + 1)) implies
                    exists|uu: int| #[trigger] union_covers(a, b, va, uu, i2, j2) by {
                    if i2 == i && j2 == j {
                        assert(va[pos as int] == (ug, nl));
                        assert(union_covers(a, b, va, pos as int, i2, j2));
                    } else {
                        let w = choose|uu: int| #[trigger] union_covers(a, b, vb, uu, i2, j2);
                        assert(vb[w] == (u0[w].0@, u0[w].1@));
                        assert(u1[w] == u0[w]);
                        if w != pos {
                            assert(unions@[w] == before[w]);
                            assert(va[w] == vb[w]);
                            assert(union_covers(a, b, va, w, i2, j2));
                        } else {
                            assert(vb[w].1 == list);
                            let pp: (usize, usize) = (i2 as usize, j2 as usize);
                            assert(list.contains(pp) || exists|yy: int| 0 <= yy < list.len() && holds_pair(a, b, pp, #[trigger] list[yy]));
                            assert(va[w] == (ug, nl));
                            assert(union_covers(a, b, va, w, i2, j2));
                        }
                    }
                }
            }
            j += 1;
        }
        i += 1;
    }
    unions
}


/// The labels that the groups of parts `i` of `a` and `j` of `b` share.
pub open spec fn meet(a: Seq<PartV>, b: Seq<PartV>, i: int, j: int) -> Set<Label> {
    a[i].1.to_set().intersect(b[j].1.to_set())
}

/// Pairing parts `i1` with `j1` and `i2` with `j2` is beaten by the crossed
/// pairing: each crossed intersection holds the straight one, and one of
/// them holds more.
pub open spec fn crossing_better(a: Seq<PartV>, b: Seq<PartV>, i1: int, i2: int, j1: int, j2: int) -> bool {
    let u1 = meet(a, b, i1, j1);
    let u2 = meet(a, b, i2, j2);
    let u3 = meet(a, b, i1, j2);
    let u4 = meet(a, b, i2, j1);
    ||| (u1.subset_of(u4) && u2.subset_of(u3) && (u1 != u4 || u2 != u3))
    ||| (u1.subset_of(u3) && u2.subset_of(u4) && (u1 != u3 || u2 != u4))
}

/// The matrix has `n1` rows of `n2` entries.
pub open spec fn matrix_dims(p: Seq<Seq<usize>>, n1: int, n2: int) -> bool {
    &&& p.len() == n1
    &&& forall|i: int| 0 <= i < n1 ==> (#[trigger] p[i]).len() == n2
}

/// The views of the rows of a matrix.
pub open spec fn rows_view(p: Seq<Vec<usize>>) -> Seq<Seq<usize>> {
    p.map_values(|r: Vec<usize>| r@)
}

/// Whether the matrix has `n1` rows of `n2` entries.
fn has_dims(p: &Vec<Vec<usize>>, n1: usize, n2: usize) -> (r: bool)
    ensures
        r == matrix_dims(rows_view(p@), n1 as int, n2 as int),
{
    if p.len() != n1 {
        return false;
    }
    let mut i: usize = 0;
    while i < p.len()
        invariant
            i <= p@.len(),
            p@.len() == n1,
            forall|q: int| 0 <= q < i ==> (#[trigger] rows_view(p@)[q]).len() == n2,
        decreases p@.len() - i,
    {
        if p[i].len() != n2 {
            assert(rows_view(p@)[i as int].len() != n2);
            return false;
        }
        i += 1;
    }
    true
}

/// Whether the two groups hold the same labels; both are strictly increasing.
fn same_labels(a: &Group, b: &Group) -> (r: bool)
    requires
        a.wf(),
        b.wf(),
    ensures
        r == (a.labels() == b.labels()),
{
    let r = a.same_as(b);
    proof {
        if a.labels() == b.labels() {
            crate::normalize::lemma_sorted_same_set(a@, b@);
        }
    }
    r
}

/// A pair of pairs of parts that both carry units in the pairing `p` and
/// whose crossing is better, if there is one.
fn find_bad(p: &Vec<Vec<usize>>, c1: &Line, c2: &Line) -> (r: Option<(usize, usize, usize, usize)>)
    requires
        c1.wf(),
        c2.wf(),
        matrix_dims(rows_view(p@), c1@.len() as int, c2@.len() as int),
    ensures
        match r {
            Some((i1, i2, j1, j2)) => {
                &&& i1 < i2 < c1@.len()
                &&& j1 < c2@.len()
                &&& j2 < c2@.len()
                &&& rows_view(p@)[i1 as int][j1 as int] != 0
                &&& rows_view(p@)[i2 as int][j2 as int] != 0
                &&& crossing_better(c1@, c2@, i1 as int, i2 as int, j1 as int, j2 as int)
            },
            None => forall|i1: int, i2: int, j1: int, j2: int|
                0 <= i1 < i2 < c1@.len() && 0 <= j1 < c2@.len() && 0 <= j2 < c2@.len()
                && #[trigger] rows_view(p@)[i1][j1] != 0 && #[trigger] rows_view(p@)[i2][j2] != 0
                ==> !crossing_better(c1@, c2@, i1, i2, j1, j2),
        },
{
    let ghost pv = rows_view(p@);
    let ghost a = c1@;
    let ghost b = c2@;
    let n1 = c1.parts.len();
    let n2 = c2.parts.len();
    let mut i1: usize = 0;
    while i1 < n1
        invariant
            i1 <= n1,
            n1 == a.len(),
            n2 == b.len(),
            a == c1@,
            b == c2@,
            c1.wf(),
            c2.wf(),
            pv == rows_view(p@),
            matrix_dims(pv, n1 as int, n2 as int),
            forall|x1: int, x2: int, y1: int, y2: int|
                0 <= x1 < i1 && x1 < x2 < n1 && 0 <= y1 < n2 && 0 <= y2 < n2
                && #[trigger] pv[x1][y1] != 0 && #[trigger] pv[x2][y2] != 0
                ==> !crossing_better(a, b, x1, x2, y1, y2),
        decreases n1 - i1,
    {
        let mut j1: usize = 0;
        while j1 < n2
            invariant
                i1 < n1,
                j1 <= n2,
                n1 == a.len(),
                n2 == b.len(),
                a == c1@,
                b == c2@,
                c1.wf(),
                c2.wf(),
                pv == rows_view(p@),
                matrix_dims(pv, n1 as int, n2 as int),
                forall|x1: int, x2: int, y1: int, y2: int|
                    0 <= x1 < i1 && x1 < x2 < n1 && 0 <= y1 < n2 && 0 <= y2 < n2
                    && #[trigger] pv[x1][y1] != 0 && #[trigger] pv[x2][y2] != 0
                    ==> !crossing_better(a, b, x1, x2, y1, y2),
                forall|y1: int, x2: int, y2: int|
                    0 <= y1 < j1 && i1 < x2 < n1 && 0 <= y2 < n2
                    && #[trigger] pv[i1 as int][y1] != 0 && #[trigger] pv[x2][y2] != 0
                    ==> !crossing_better(a, b, i1 as int, x2, y1, y2),
            decreases n2 - j1,
        {
            assert(pv[i1 as int] == p@[i1 as int]@);
            if p[i1][j1] != 0 {
                let mut i2: usize = i1 + 1;
                while i2 < n1
                    invariant
                        i1 < i2 <= n1,
                        j1 < n2,
                        n1 == a.len(),
                        n2 == b.len(),
                        a == c1@,
                        b == c2@,
                        c1.wf(),
                        c2.wf(),
                        pv == rows_view(p@),
                        matrix_dims(pv, n1 as int, n2 as int),
                        pv[i1 as int][j1 as int] != 0,
                        forall|x2: int, y2: int| i1 < x2 < i2 && 0 <= y2 < n2 && #[trigger] pv[x2][y2] != 0
                            ==> !crossing_better(a, b, i1 as int, x2, j1 as int, y2),
                    decreases n1 - i2,
                {
                    let mut j2: usize = 0;
                    while j2 < n2
                        invariant
                            i1 < i2 < n1,
                            j1 < n2,
                            j2 <= n2,
                            n1 == a.len(),
                            n2 == b.len(),
                            a == c1@,
                            b == c2@,
                            c1.wf(),
                            c2.wf(),
                            pv == rows_view(p@),
                            matrix_dims(pv, n1 as int, n2 as int),
                            pv[i1 as int][j1 as int] != 0,
                            forall|x2: int, y2: int| i1 < x2 < i2 && 0 <= y2 < n2 && #[trigger] pv[x2][y2] != 0
                                ==> !crossing_better(a, b, i1 as int, x2, j1 as int, y2),
                            forall|y2: int| 0 <= y2 < j2 && #[trigger] pv[i2 as int][y2] != 0
                                ==> !crossing_better(a, b, i1 as int, i2 as int, j1 as int, y2),
                        decreases n2 - j2,
                    {
                        assert(pv[i2 as int] == p@[i2 as int]@);
                        if p[i2][j2] != 0 {
                            let g11 = &c1.parts[i1].group;
                            let g12 = &c1.parts[i2].group;
                            let g21 = &c2.parts[j1].group;
                            let g22 = &c2.parts[j2].group;
                            proof {
                                assert(g11@ == a[i1 as int].1 && g12@ == a[i2 as int].1);
                                assert(g21@ == b[j1 as int].1 && g22@ == b[j2 as int].1);
                            }
                            let u1 = g11.intersection(g21);
                            let u2 = g12.intersection(g22);
                            let u3 = g11.intersection(g22);
                            let u4 = g12.intersection(g21);
                            let first = u4.is_superset(&u1) && u3.is_superset(&u2)
                                && (!same_labels(&u1, &u4) || !same_labels(&u2, &u3));
                            let second = u3.is_superset(&u1) && u4.is_superset(&u2)
                                && (!same_labels(&u1, &u3) || !same_labels(&u2, &u4));
                            if first || second {
                                return Some((i1, i2, j1, j2));
                            }
                        }
                        j2 += 1;
                    }
                    i2 += 1;
                }
            }
            j1 += 1;
        }
        i1 += 1;
    }
    None
}

/// The number of units that a part takes in a pairing: its exponent, or
/// `star` for a starred part.
pub open spec fn units_of(p: PartV, star: usize) -> usize {
    match p.0 {
        GroupType::Many(x) => x as usize,
        GroupType::Star => star,
    }
}

/// The units of each part of a line.
fn line_counts(l: &Line, star: usize) -> (r: Vec<usize>)
    ensures
        r@.len() == l@.len(),
        forall|i: int| 0 <= i < r@.len() ==> #[trigger] r@[i] == units_of(l@[i], star),
{
    let mut r: Vec<usize> = Vec::new();
    let mut i: usize = 0;
    while i < l.parts.len()
        invariant
            i <= l@.len(),
            r@.len() == i,
            forall|q: int| 0 <= q < i ==> #[trigger] r@[q] == units_of(l@[q], star),
        decreases l@.len() - i,
    {
        let x = match l.parts[i].gtype {
            GroupType::Many(e) => e as usize,
            GroupType::Star => star,
        };
        r.push(x);
        i += 1;
    }
    r
}

/// The sum of the counts from index `i` on, when it stays within `bound`.
fn suffix_sum(v: &Vec<usize>, bound: usize) -> (r: Option<usize>)
    ensures
        match r {
            Some(s) => s == suffix_total(v@, 0) && s <= bound,
            None => suffix_total(v@, 0) > bound,
        },
{
    let mut s: usize = 0;
    let mut i: usize = v.len();
    while i > 0
        invariant
            i <= v@.len(),
            s == suffix_total(v@, i as int),
            s <= bound,
        decreases i,
    {
        i -= 1;
        if v[i] > bound - s {
            proof {
                lemma_suffix_ge(v@, i as int);
            }
            return None;
        }
        s += v[i];
    }
    Some(s)
}

proof fn lemma_suffix_ge(v: Seq<usize>, i: int)
    requires
        0 <= i < v.len(),
    ensures
        suffix_total(v, 0) >= suffix_total(v, i),
    decreases i,
{
    if i > 0 {
        lemma_suffix_ge(v, i - 1);
    }
}

/// The sum of the counts, when it stays within `bound`.
fn prefix_sum(v: &Vec<usize>, bound: usize) -> (r: Option<usize>)
    ensures
        match r {
            Some(s) => s == total(v@) && s <= bound,
            None => total(v@) > bound,
        },
{
    let mut s: usize = 0;
    let mut i: usize = 0;
    while i < v.len()
        invariant
            i <= v@.len(),
            s == total(v@.subrange(0, i as int)),
            s <= bound,
        decreases v@.len() - i,
    {
        proof {
            assert(v@.subrange(0, i + 1).drop_last() =~= v@.subrange(0, i as int));
        }
        if v[i] > bound - s {
            proof {
                lemma_total_prefix_mono(v@, i + 1);
            }
            return None;
        }
        s += v[i];
        i += 1;
    }
    assert(v@.subrange(0, v@.len() as int) =~= v@);
    Some(s)
}

proof fn lemma_total_prefix_mono(v: Seq<usize>, n: int)
    requires
        0 <= n <= v.len(),
    ensures
        total(v.subrange(0, n)) <= total(v),
    decreases v.len() - n,
{
    if n < v.len() {
        lemma_total_prefix_mono(v, n + 1);
        assert(v.subrange(0, n + 1).drop_last() =~= v.subrange(0, n));
    } else {
        assert(v.subrange(0, n) =~= v);
    }
}

/// A part of a combined line other than the union: a non-empty group, and
/// at least one occurrence.
pub open spec fn combined_part(p: PartV) -> bool {
    &&& p.1.len() > 0
    &&& strictly_sorted(p.1)
    &&& p.0 != GroupType::Many(0)
}

/// A combined part without a star.
pub open spec fn plain_part(p: PartV) -> bool {
    combined_part(p) && p.0 != GroupType::Star
}

/// The parts of the lines obtained from `c1` and `c2` by pairing their
/// occurrences in every way, after the part `union`: each pair of parts that
/// shares occurrences gives the intersection of their groups, and the two
/// starred parts give their intersection, starred. A pairing is skipped when
/// some intersection is empty or when crossing two of its pairs does better;
/// when the crossing of the last skipped pairing does better again, the
/// pairing is skipped without looking further.
fn intersections(union: &Group, c1: &Line, c2: &Line) -> (r: Vec<Vec<Part>>)
    requires
        union.wf(),
        c1.wf(),
        c2.wf(),
    ensures
        forall|k: int| 0 <= k < r@.len() ==> (#[trigger] r@[k])@.len() >= 1
            && parts_view(r@[k]@)[0] == (GroupType::Many(1), union@),
        forall|k: int, q: int| 0 <= k < r@.len() && 1 <= q < r@[k]@.len() ==> combined_part(#[trigger] r@[k]@[q]@),
        forall|k: int| 0 <= k < r@.len() && has_star_spec(parts_view(#[trigger] r@[k]@)) ==> has_star_spec(c1@) && has_star_spec(c2@),
{
    let mut result: Vec<Vec<Part>> = Vec::new();
    let t1 = c1.degree_without_star();
    let t2 = c2.degree_without_star();
    let d = if c1.has_star() { t1 + t2 } else { t1 };
    if d < t2 {
        return result;
    }
    let star1 = d - t1;
    let star2 = d - t2;
    let mut star_part: Option<Part> = None;
    match (c1.get_star(), c2.get_star()) {
        (Some(s1), Some(s2)) => {
            proof {
                let k1 = choose|i: int| 0 <= i < c1.parts@.len() && c1.parts@[i] == *s1
                    && forall|j: int| 0 <= j < i ==> c1.parts@[j].gtype != GroupType::Star;
                let k2 = choose|i: int| 0 <= i < c2.parts@.len() && c2.parts@[i] == *s2
                    && forall|j: int| 0 <= j < i ==> c2.parts@[j].gtype != GroupType::Star;
                assert(c1@[k1].1 == s1.group@);
                assert(c2@[k2].1 == s2.group@);
            }
            let g = s1.group.intersection(&s2.group);
            if g.is_empty() {
                return result;
            }
            star_part = Some(Part { gtype: GroupType::Star, group: g });
        },
        _ => {},
    }
    proof {
        if star_part is Some {
            assert(has_star_spec(c1@) && has_star_spec(c2@));
        }
    }
    let v1 = line_counts(c1, star1);
    let v2 = line_counts(c2, star2);
    let s1 = suffix_sum(&v1, 1_000_000);
    let s2 = prefix_sum(&v2, 1_000_000);
    match (s1, s2) {
        (Some(a), Some(b)) => {
            if a > b {
                return result;
            }
        },
        _ => {
            return result;
        },
    }
    let n1 = c1.parts.len();
    let n2 = c2.parts.len();
    let mut pairings = Pairings::new(v1, v2);
    let mut oldbad: Option<(usize, usize, usize, usize)> = None;
    pairings.advance();
    let mut fuel: u64 = u64::MAX;
    while !pairings.is_done() && fuel > 0
        invariant
            pairings.wf(),
            union.wf(),
            c1.wf(),
            c2.wf(),
            n1 == c1@.len(),
            n2 == c2@.len(),
            star_part is Some ==> has_star_spec(c1@) && has_star_spec(c2@),
            star_part matches Some(sp) ==> combined_part(sp@) && sp.gtype == GroupType::Star,
            forall|k: int| 0 <= k < result@.len() ==> (#[trigger] result@[k])@.len() >= 1
                && parts_view(result@[k]@)[0] == (GroupType::Many(1), union@),
            forall|k: int, q: int| 0 <= k < result@.len() && 1 <= q < result@[k]@.len() ==> combined_part(#[trigger] result@[k]@[q]@),
            forall|k: int| 0 <= k < result@.len() && has_star_spec(parts_view(#[trigger] result@[k]@)) ==> has_star_spec(c1@) && has_star_spec(c2@),
        decreases fuel,
    {
        fuel -= 1;
        let p = pairings.matrix();
        if !has_dims(&p, n1, n2) {
            pairings.advance();
            continue;
        }
        let ghost pv = rows_view(p@);
        let mut skip = false;
        match oldbad {
            Some((i1, i2, j1, j2)) => {
                if i1 < n1 && i2 < n1 && j1 < n2 && j2 < n2 {
                    assert(pv[i1 as int] == p@[i1 as int]@);
                    assert(pv[i2 as int] == p@[i2 as int]@);
                    if p[i1][j1] != 0 && p[i2][j2] != 0 {
                        skip = true;
                    }
                }
            },
            None => {},
        }
        if !skip {
            match find_bad(&p, c1, c2) {
                Some(bad) => {
                    oldbad = Some(bad);
                    skip = true;
                },
                None => {},
            }
        }
        if !skip {
            let mut parts: Vec<Part> = Vec::new();
            parts.push(Part { gtype: GroupType::one(), group: union.duplicate() });
            let mut ok = true;
            let mut i: usize = 0;
            while i < n1 && ok
                invariant
                    i <= n1,
                    n1 == c1@.len(),
                    n2 == c2@.len(),
                    c1.wf(),
                    c2.wf(),
                    pv == rows_view(p@),
                    matrix_dims(pv, n1 as int, n2 as int),
                    parts@.len() >= 1,
                    parts_view(parts@)[0] == (GroupType::Many(1), union@),
                    forall|q: int| 1 <= q < parts@.len() ==> plain_part(#[trigger] parts@[q]@),
                decreases n1 - i,
            {
                let mut j: usize = 0;
                while j < n2 && ok
                    invariant
                        i < n1,
                        j <= n2,
                        n1 == c1@.len(),
                        n2 == c2@.len(),
                        c1.wf(),
                        c2.wf(),
                        pv == rows_view(p@),
                        matrix_dims(pv, n1 as int, n2 as int),
                        parts@.len() >= 1,
                        parts_view(parts@)[0] == (GroupType::Many(1), union@),
                        forall|q: int| 1 <= q < parts@.len() ==> plain_part(#[trigger] parts@[q]@),
                    decreases n2 - j,
                {
                    assert(pv[i as int] == p@[i as int]@);
                    let x = p[i][j];
                    if x > 0 {
                        if x > 255 {
                            ok = false;
                        } else {
                            proof {
                                assert(c1.parts@[i as int].group@ == c1@[i as int].1);
                                assert(c2.parts@[j as int].group@ == c2@[j as int].1);
                            }
                            let g = c1.parts[i].group.intersection(&c2.parts[j].group);
                            if g.is_empty() {
                                ok = false;
                            } else {
                                let ghost before = parts@;
                                let e: u8 = x as u8;
                                parts.push(Part { gtype: GroupType::Many(e), group: g });
                                proof {
                                    assert(parts_view(parts@)[0] == parts_view(before)[0]);
                                    assert forall|q: int| 1 <= q < parts@.len() implies plain_part(#[trigger] parts@[q]@) by {
                                        if q < before.len() {
                                            assert(parts@[q] == before[q]);
                                        }
                                    }
                                }
                            }
                        }
                    }
                    j += 1;
                }
                i += 1;
            }
            if ok {
                let ghost before = parts@;
                match &star_part {
                    Some(sp) => {
                        parts.push(sp.duplicate());
                        proof {
                            assert(parts_view(parts@)[0] == parts_view(before)[0]);
                            assert forall|q: int| 1 <= q < parts@.len() implies combined_part(#[trigger] parts@[q]@) by {
                                if q < before.len() {
                                    assert(parts@[q] == before[q]);
                                    assert(plain_part(before[q]@));
                                }
                            }
                        }
                    },
                    None => {
                        proof {
                            assert forall|q: int| 0 <= q < parts@.len() implies (#[trigger] parts_view(parts@)[q]).0 != GroupType::Star by {
                                assert(parts_view(parts@)[q] == parts@[q]@);
                                if q >= 1 {
                                    assert(plain_part(parts@[q]@));
                                }
                            }
                            assert(!has_star_spec(parts_view(parts@)));
                        }
                    },
                }
                proof {
                    if has_star_spec(parts_view(parts@)) {
                        let q = choose|q: int| 0 <= q < parts_view(parts@).len() && (#[trigger] parts_view(parts@)[q]).0 == GroupType::Star;
                        assert(parts_view(parts@)[q] == parts@[q]@);
                        assert(star_part is Some);
                    }
                }
                let ghost rbefore = result@;
                result.push(parts);
                proof {
                    assert forall|k: int, q: int| 0 <= k < result@.len() && 1 <= q < result@[k]@.len() implies combined_part(#[trigger] result@[k]@[q]@) by {
                        if k < rbefore.len() {
                            assert(result@[k] == rbefore[k]);
                        }
                    }
                }
            }
        }
        pairings.advance();
    }
    result
}


/// No part of the line occurs zero times.
pub open spec fn no_zero(ps: Seq<PartV>) -> bool {
    forall|i: int| 0 <= i < ps.len() ==> (#[trigger] ps[i]).0 != GroupType::Many(0)
}

/// A normal form has no part that occurs zero times.
pub proof fn lemma_normalized_no_zero(r: Seq<PartV>, ps: Seq<PartV>)
    requires
        normalized_from(r, ps),
        parts_wf(ps),
    ensures
        no_zero(r),
{
    assert forall|i: int| 0 <= i < r.len() implies (#[trigger] r[i]).0 != GroupType::Many(0) by {
        if r[i].0 != GroupType::Star {
            crate::line::lemma_count_le_degree(ps, r[i].1);
        }
    }
}

/// Taking out one occurrence keeps a line well formed, and keeps its star.
pub proof fn lemma_minus_one_wf(ps: Seq<PartV>, i: int)
    requires
        parts_wf(ps),
        0 <= i < ps.len(),
        ps[i].0 != GroupType::Many(0),
    ensures
        parts_wf(minus_one(ps, i)),
        has_star_spec(minus_one(ps, i)) == has_star_spec(ps),
{
    let q = minus_one(ps, i);
    crate::normalize::lemma_degree_update(ps, i, q[i]);
    assert forall|k: int| 0 <= k < q.len() implies strictly_sorted(#[trigger] q[k].1) by {
        assert(q[k].1 == ps[k].1);
    }
    if has_star_spec(ps) {
        let k = choose|k: int| 0 <= k < ps.len() && (#[trigger] ps[k]).0 == GroupType::Star;
        assert(q[k].0 == GroupType::Star);
    }
    if has_star_spec(q) {
        let k = choose|k: int| 0 <= k < q.len() && (#[trigger] q[k]).0 == GroupType::Star;
        assert(ps[k].0 == GroupType::Star);
    }
}

/// The lines that stay when `n` is added come from `ls`, or are `n`.
pub proof fn lemma_add_line_from(ls: Seq<Seq<PartV>>, n: Seq<PartV>)
    ensures
        forall|k: int| 0 <= k < add_line_spec(ls, n).len() ==>
            ls.contains(#[trigger] add_line_spec(ls, n)[k]) || add_line_spec(ls, n)[k] == n,
{
    lemma_not_included_from(ls, n);
    let kept = not_included_by(ls, n);
    let r = add_line_spec(ls, n);
    assert forall|k: int| 0 <= k < r.len() implies ls.contains(#[trigger] r[k]) || r[k] == n by {
        if k < kept.len() {
            assert(r[k] == kept[k]);
        }
    }
}

proof fn lemma_not_included_from(ls: Seq<Seq<PartV>>, n: Seq<PartV>)
    ensures
        forall|k: int| 0 <= k < not_included_by(ls, n).len() ==> ls.contains(#[trigger] not_included_by(ls, n)[k]),
    decreases ls.len(),
{
    if ls.len() > 0 {
        let p = ls.drop_last();
        lemma_not_included_from(p, n);
        let kept = not_included_by(ls, n);
        assert forall|k: int| 0 <= k < kept.len() implies ls.contains(#[trigger] kept[k]) by {
            let kp = not_included_by(p, n);
            if k < kp.len() {
                assert(kept[k] == kp[k]);
                let t = choose|t: int| 0 <= t < p.len() && p[t] == kp[k];
                assert(ls[t] == p[t]);
            } else {
                assert(kept[k] == ls.last());
                assert(ls[ls.len() - 1] == ls.last());
            }
        }
    }
}

/// The line of the given parts, when it is well formed: at most `MAX_PARTS`
/// parts, strictly increasing groups, exponents adding up to at most 255.
pub(crate) fn line_if_fits(parts: Vec<Part>) -> (r: Option<Line>)
    requires
        forall|q: int| 0 <= q < parts@.len() ==> strictly_sorted(#[trigger] parts@[q].group@),
    ensures
        r matches Some(l) ==> l.wf() && l@ == parts_view(parts@),
        r is None ==> !parts_wf(parts_view(parts@)),
{
    if parts.len() > MAX_PARTS {
        return None;
    }
    let ghost ps = parts_view(parts@);
    let mut s: usize = 0;
    let mut i: usize = 0;
    while i < parts.len()
        invariant
            i <= parts@.len(),
            ps == parts_view(parts@),
            s == degree_without_star_spec(ps.subrange(0, i as int)),
            s <= 255,
        decreases parts@.len() - i,
    {
        proof {
            assert(ps.subrange(0, i + 1).drop_last() =~= ps.subrange(0, i as int));
            assert(ps[i as int] == parts@[i as int]@);
        }
        match parts[i].gtype {
            GroupType::Many(n) => {
                if n as usize > 255 - s {
                    proof {
                        crate::line::lemma_degree_prefix(ps, i + 1);
                        assert(ps.subrange(0, i + 1).last() == ps[i as int]);
                    }
                    return None;
                }
                s += n as usize;
            },
            GroupType::Star => {},
        }
        i += 1;
    }
    assert(ps.subrange(0, ps.len() as int) =~= ps);
    let l = Line { parts };
    proof {
        assert forall|q: int| 0 <= q < l@.len() implies strictly_sorted(#[trigger] l@[q].1) by {
            assert(l@[q] == l.parts@[q]@);
        }
    }
    Some(l)
}

/// With a starred part present, parts that occur at least `limit` times
/// become starred.
fn star_large_parts(parts: &mut Vec<Part>, limit: u8)
    ensures
        final(parts)@.len() == old(parts)@.len(),
        forall|q: int| 0 <= q < final(parts)@.len() ==> (#[trigger] final(parts)@[q]).group@ == old(parts)@[q].group@,
        forall|q: int| 0 <= q < final(parts)@.len() ==> ((#[trigger] final(parts)@[q]).gtype == GroupType::Star
            <==> (old(parts)@[q].gtype == GroupType::Star || (old(parts)@[q].gtype matches GroupType::Many(x) && x >= limit))),
        forall|q: int| 0 <= q < final(parts)@.len() && (#[trigger] final(parts)@[q]).gtype != GroupType::Star ==>
            final(parts)@[q].gtype == old(parts)@[q].gtype,
{
    let mut i: usize = 0;
    while i < parts.len()
        invariant
            i <= parts@.len(),
            parts@.len() == old(parts)@.len(),
            forall|q: int| 0 <= q < parts@.len() ==> (#[trigger] parts@[q]).group@ == old(parts)@[q].group@,
            forall|q: int| i <= q < parts@.len() ==> #[trigger] parts@[q] == old(parts)@[q],
            forall|q: int| 0 <= q < i ==> ((#[trigger] parts@[q]).gtype == GroupType::Star
                <==> (old(parts)@[q].gtype == GroupType::Star || (old(parts)@[q].gtype matches GroupType::Many(x) && x >= limit))),
            forall|q: int| 0 <= q < i && (#[trigger] parts@[q]).gtype != GroupType::Star ==>
                parts@[q].gtype == old(parts)@[q].gtype,
        decreases parts@.len() - i,
    {
        let large = match parts[i].gtype {
            GroupType::Many(x) => x >= limit,
            GroupType::Star => false,
        };
        if large {
            let g = parts[i].group.duplicate();
            parts.set(i, Part { gtype: GroupType::Star, group: g });
        }
        i += 1;
    }
}

/// The new lines obtained by combining `l1` and `l2`: for each good union of
/// a group of each, and each pair of parts giving it, the lines that pair the
/// rest of the two lines (`w1`, `w2`: the lines without one occurrence of
/// each part), with large exponents starred when a star is present, in
/// normal form; a line of degree `d` that was not seen before is recorded in
/// `seen` and kept if no other new line includes it.
fn combine_lines(l1: &Line, l2: &Line, w1: &Vec<Line>, w2: &Vec<Line>, seen: &mut Vec<Line>, d: Degree, becomes_star: u8) -> (r: Vec<Line>)
    requires
        l1.wf(),
        l2.wf(),
        w1@.len() == l1@.len(),
        w2@.len() == l2@.len(),
        forall|k: int| 0 <= k < w1@.len() ==> (#[trigger] w1@[k]).wf(),
        forall|k: int| 0 <= k < w2@.len() ==> (#[trigger] w2@[k]).wf(),
    ensures
        lines_wf(r@, d),
        forall|k: int| 0 <= k < r@.len() ==> no_zero(#[trigger] r@[k]@),
        final(seen)@.len() >= old(seen)@.len(),
        lines_view(final(seen)@).subrange(0, old(seen)@.len() as int) == lines_view(old(seen)@),
        forall|k: int| 0 <= k < r@.len() ==> lines_view(final(seen)@).contains(#[trigger] r@[k]@),
        forall|k: int| 0 <= k < r@.len() ==> !lines_view(old(seen)@).contains(#[trigger] r@[k]@),
{
    let ghost start = lines_view(seen@);
    let mut result = Constraint { lines: Vec::new(), is_maximized: false, degree: d };
    let unions = good_unions(l1, l2);
    let mut u: usize = 0;
    while u < unions.len()
        invariant
            u <= unions@.len(),
            l1.wf(),
            l2.wf(),
            w1@.len() == l1@.len(),
            w2@.len() == l2@.len(),
            forall|k: int| 0 <= k < w1@.len() ==> (#[trigger] w1@[k]).wf(),
            forall|k: int| 0 <= k < w2@.len() ==> (#[trigger] w2@[k]).wf(),
            forall|q: int| 0 <= q < unions@.len() ==> (#[trigger] unions@[q]).0.wf(),
            forall|q: int, k: int| 0 <= q < unions@.len() && 0 <= k < unions@[q].1@.len() ==>
                union_pair(l1@, l2@, unions@[q].0@, #[trigger] unions@[q].1@[k]),
            result.wf(),
            result.degree == d,
            forall|k: int| 0 <= k < result@.len() ==> no_zero(#[trigger] result@[k]),
            seen@.len() >= start.len(),
            lines_view(seen@).subrange(0, start.len() as int) == start,
            forall|k: int| 0 <= k < result@.len() ==> lines_view(seen@).contains(#[trigger] result@[k]),
            forall|k: int| 0 <= k < result@.len() ==> !start.contains(#[trigger] result@[k]),
        decreases unions@.len() - u,
    {
        let ug = &unions[u].0;
        let pairs = &unions[u].1;
        let mut k: usize = 0;
        while k < pairs.len()
            invariant
                k <= pairs@.len(),
                u < unions@.len(),
                ug == &unions@[u as int].0,
                pairs == &unions@[u as int].1,
                ug.wf(),
                l1.wf(),
                l2.wf(),
                w1@.len() == l1@.len(),
                w2@.len() == l2@.len(),
                forall|k: int| 0 <= k < w1@.len() ==> (#[trigger] w1@[k]).wf(),
                forall|k: int| 0 <= k < w2@.len() ==> (#[trigger] w2@[k]).wf(),
                forall|q: int| 0 <= q < pairs@.len() ==> union_pair(l1@, l2@, ug@, #[trigger] pairs@[q]),
                result.wf(),
                result.degree == d,
                forall|k: int| 0 <= k < result@.len() ==> no_zero(#[trigger] result@[k]),
                seen@.len() >= start.len(),
                lines_view(seen@).subrange(0, start.len() as int) == start,
                forall|k: int| 0 <= k < result@.len() ==> lines_view(seen@).contains(#[trigger] result@[k]),
                forall|k: int| 0 <= k < result@.len() ==> !start.contains(#[trigger] result@[k]),
            decreases pairs@.len() - k,
        {
            let (x, y) = pairs[k];
            assert(union_pair(l1@, l2@, ug@, pairs@[k as int]));
            let lines = intersections(ug, &w1[x], &w2[y]);
            let mut t: usize = 0;
            while t < lines.len()
                invariant
                    t <= lines@.len(),
                    ug.wf(),
                    forall|q: int| 0 <= q < lines@.len() ==> (#[trigger] lines@[q])@.len() >= 1
                        && parts_view(lines@[q]@)[0] == (GroupType::Many(1), ug@),
                    forall|q: int, p: int| 0 <= q < lines@.len() && 1 <= p < lines@[q]@.len() ==> combined_part(#[trigger] lines@[q]@[p]@),
                    result.wf(),
                    result.degree == d,
                    forall|k: int| 0 <= k < result@.len() ==> no_zero(#[trigger] result@[k]),
                    seen@.len() >= start.len(),
                    lines_view(seen@).subrange(0, start.len() as int) == start,
                    forall|k: int| 0 <= k < result@.len() ==> lines_view(seen@).contains(#[trigger] result@[k]),
                    forall|k: int| 0 <= k < result@.len() ==> !start.contains(#[trigger] result@[k]),
                decreases lines@.len() - t,
            {
                let mut parts = crate::line::copy_parts(&lines[t]);
                proof {
                    let lt = lines@[t as int]@;
                    assert(parts_view(parts@).len() == parts@.len());
                    assert(parts_view(lt).len() == lt.len());
                    assert forall|p: int| 0 <= p < parts@.len() implies strictly_sorted(#[trigger] parts@[p].group@) by {
                        assert(parts_view(parts@)[p] == parts@[p]@);
                        assert(parts_view(lines@[t as int]@)[p] == lines@[t as int]@[p]@);
                        if p >= 1 {
                            assert(combined_part(lines@[t as int]@[p]@));
                        }
                    }
                }
                let probe = Line { parts: crate::line::copy_parts(&parts) };
                if probe.has_star() {
                    star_large_parts(&mut parts, becomes_star);
                }
                match line_if_fits(parts) {
                    Some(mut newline) => {
                        let ghost raw = newline@;
                        newline.normalize();
                        proof {
                            lemma_normalized_no_zero(newline@, raw);
                        }
                        let nd = newline.degree();
                        if nd == d {
                            match find_line(seen, &newline) {
                                Some(_) => {},
                                None => {
                                    let ghost before_seen = lines_view(seen@);
                                    seen.push(newline.duplicate());
                                    let ghost rb = result@;
                                    let ghost nv = newline@;
                                    result.add_line_and_discard_non_maximal(newline);
                                    proof {
                                        assert(lines_view(seen@) =~= before_seen.push(nv));
                                        assert(lines_view(seen@).subrange(0, start.len() as int) =~= before_seen.subrange(0, start.len() as int));
                                        assert(!start.contains(nv)) by {
                                            if start.contains(nv) {
                                                let q = choose|q: int| 0 <= q < start.len() && start[q] == nv;
                                                assert(before_seen[q] == nv);
                                            }
                                        }
                                        lemma_add_line_from(rb, nv);
                                        assert forall|k: int| 0 <= k < result@.len() implies
                                            no_zero(#[trigger] result@[k]) && lines_view(seen@).contains(result@[k]) && !start.contains(result@[k]) by {
                                            if result@[k] != nv {
                                                assert(rb.contains(result@[k]));
                                                let q = choose|q: int| 0 <= q < rb.len() && rb[q] == result@[k];
                                                assert(no_zero(rb[q]));
                                                assert(lines_view(seen@).contains(rb[q])) by {
                                                    let z = choose|z: int| 0 <= z < before_seen.len() && before_seen[z] == rb[q];
                                                    assert(lines_view(seen@)[z] == rb[q]);
                                                }
                                            } else {
                                                assert(lines_view(seen@)[before_seen.len() as int] == nv);
                                            }
                                        }
                                    }
                                },
                            }
                        }
                    },
                    None => {},
                }
                t += 1;
            }
            k += 1;
        }
        u += 1;
    }
    proof {
        assert forall|k: int| 0 <= k < result.lines@.len() implies #[trigger] result.lines@[k]@ == result@[k] by {}
    }
    result.lines
}


/// Whether two constraints have the same lines, in the same order, and the
/// same degree.
fn constraints_equal(a: &Constraint, b: &Constraint) -> (r: bool)
    ensures
        r == (a@ == b@ && a.degree == b.degree),
{
    if a.degree != b.degree || a.lines.len() != b.lines.len() {
        proof {
            if a.lines.len() != b.lines.len() {
                assert(a@.len() != b@.len());
            }
        }
        return false;
    }
    let mut i: usize = 0;
    while i < a.lines.len()
        invariant
            i <= a.lines@.len(),
            a.lines@.len() == b.lines@.len(),
            forall|q: int| 0 <= q < i ==> a@[q] == b@[q],
        decreases a.lines@.len() - i,
    {
        if !lines_equal(&a.lines[i], &b.lines[i]) {
            assert(a@[i as int] != b@[i as int]);
            return false;
        }
        i += 1;
    }
    assert(a@ =~= b@);
    true
}

/// Whether the pair is listed.
fn has_id_pair(v: &Vec<(usize, usize)>, p: (usize, usize)) -> (r: bool)
    ensures
        r == v@.contains(p),
{
    let mut i: usize = 0;
    while i < v.len()
        invariant
            i <= v@.len(),
            forall|q: int| 0 <= q < i ==> v@[q] != p,
        decreases v@.len() - i,
    {
        if v[i].0 == p.0 && v[i].1 == p.1 {
            return true;
        }
        i += 1;
    }
    false
}

/// Whether the number is listed.
fn has_id(v: &Vec<usize>, x: usize) -> (r: bool)
    ensures
        r == v@.contains(x),
{
    let mut i: usize = 0;
    while i < v.len()
        invariant
            i <= v@.len(),
            forall|q: int| 0 <= q < i ==> v@[q] != x,
        decreases v@.len() - i,
    {
        if v[i] == x {
            return true;
        }
        i += 1;
    }
    false
}

/// Adds the lines of `news`, one after the other, discarding the lines that
/// are not maximal.
fn add_all(c: &mut Constraint, news: &Vec<Line>)
    requires
        old(c).wf(),
        lines_wf(news@, old(c).degree),
        forall|k: int| 0 <= k < old(c)@.len() ==> no_zero(#[trigger] old(c)@[k]),
        forall|k: int| 0 <= k < news@.len() ==> no_zero(#[trigger] news@[k]@),
    ensures
        final(c).wf(),
        final(c).degree == old(c).degree,
        !final(c).is_maximized || (news@.len() == 0 && final(c).is_maximized == old(c).is_maximized),
        news@.len() == 0 ==> final(c)@ == old(c)@,
        forall|k: int| 0 <= k < final(c)@.len() ==> no_zero(#[trigger] final(c)@[k]),
        forall|x: Seq<PartV>| #[trigger] covered_by(old(c)@, x) ==> covered_by(final(c)@, x),
{
    let mut i: usize = 0;
    while i < news.len()
        invariant
            i <= news@.len(),
            c.wf(),
            c.degree == old(c).degree,
            lines_wf(news@, old(c).degree),
            i == 0 ==> c@ == old(c)@ && c.is_maximized == old(c).is_maximized,
            i > 0 ==> !c.is_maximized,
            forall|k: int| 0 <= k < c@.len() ==> no_zero(#[trigger] c@[k]),
            forall|k: int| 0 <= k < news@.len() ==> no_zero(#[trigger] news@[k]@),
            forall|x: Seq<PartV>| #[trigger] covered_by(old(c)@, x) ==> covered_by(c@, x),
        decreases news@.len() - i,
    {
        let l = news[i].duplicate();
        let ghost before = c@;
        let ghost lv = l@;
        assert(no_zero(news@[i as int]@));
        c.add_line_and_discard_non_maximal(l);
        proof {
            lemma_add_line_covers(before, lv);
            assert forall|x: Seq<PartV>| #[trigger] covered_by(old(c)@, x) implies covered_by(c@, x) by {
                assert(covered_by(before, x));
            }
            lemma_add_line_from(before, lv);
            assert forall|k: int| 0 <= k < c@.len() implies no_zero(#[trigger] c@[k]) by {
                if c@[k] != lv {
                    let q = choose|q: int| 0 <= q < before.len() && before[q] == c@[k];
                    assert(no_zero(before[q]));
                }
            }
        }
        i += 1;
    }
}

/// Lines `a` and `b` are the same but for one part: part `i` of `a` and part
/// `j` of `b`, both held once, with different groups.
pub open spec fn one_part_apart(a: Seq<PartV>, b: Seq<PartV>, i: int, j: int) -> bool {
    &&& 0 <= i < a.len()
    &&& 0 <= j < b.len()
    &&& a[i].0 == GroupType::Many(1)
    &&& b[j].0 == GroupType::Many(1)
    &&& a[i].1 != b[j].1
    &&& a.remove(i) == b.remove(j)
}

/// Line `a` with the group of its part `i` joined with the group of part
/// `j` of `b`: every configuration of it is one of `a` or one of `b` when
/// the two lines are one part apart there.
pub open spec fn joined_at(a: Seq<PartV>, b: Seq<PartV>, i: int, j: int) -> Seq<PartV> {
    a.update(i, (GroupType::Many(1), crate::edit::sorted_of(a[i].1.to_set().union(b[j].1.to_set()))))
}

/// The join of lines `a` and `b` one part apart at `i` and `j`, in normal
/// form, includes neither or one of them only.
pub open spec fn pair_not_joinable(a: Seq<PartV>, b: Seq<PartV>, i: int, j: int) -> bool {
    one_part_apart(a, b, i, j) ==> forall|m: Seq<PartV>| #[trigger] normalized_from(m, joined_at(a, b, i, j))
        ==> !(included(m, a) && included(m, b))
}

/// No two lines are one part apart while their join includes both: in a
/// constraint whose lines are maximal, the join would be allowed and
/// strictly larger than each.
pub open spec fn no_joinable_pair(ls: Seq<Seq<PartV>>) -> bool {
    forall|x: int, y: int, i: int, j: int| 0 <= x < ls.len() && 0 <= y < ls.len() && x != y
        ==> #[trigger] pair_not_joinable(ls[x], ls[y], i, j)
}

/// The join of any two lines of `ns` one part apart, when it includes both,
/// is included by a line of `ls` through a chain of inclusions.
pub open spec fn joins_covered(ns: Seq<Seq<PartV>>, ls: Seq<Seq<PartV>>) -> bool {
    forall|x: int, y: int, i: int, j: int, m: Seq<PartV>| 0 <= x < ns.len() && 0 <= y < ns.len()
        && #[trigger] one_part_apart(ns[x], ns[y], i, j)
        && #[trigger] normalized_from(m, joined_at(ns[x], ns[y], i, j))
        && included(m, ns[x]) && included(m, ns[y])
        ==> covered_by(ls, m)
}

/// What `ls` covers, `ls2` covers too, so the joins stay covered.
proof fn lemma_joins_move(ns: Seq<Seq<PartV>>, ls: Seq<Seq<PartV>>, ls2: Seq<Seq<PartV>>)
    requires
        joins_covered(ns, ls),
        forall|x: Seq<PartV>| #[trigger] covered_by(ls, x) ==> covered_by(ls2, x),
    ensures
        joins_covered(ns, ls2),
{
    assert forall|x: int, y: int, i: int, j: int, m: Seq<PartV>| 0 <= x < ns.len() && 0 <= y < ns.len()
        && #[trigger] one_part_apart(ns[x], ns[y], i, j)
        && #[trigger] normalized_from(m, joined_at(ns[x], ns[y], i, j))
        && included(m, ns[x]) && included(m, ns[y])
        implies covered_by(ls2, m) by {
        assert(covered_by(ls, m));
    }
}

/// Whether `a` without part `i` is `b` without part `j`.
fn equal_without(a: &Line, i: usize, b: &Line, j: usize) -> (r: bool)
    requires
        i < a@.len(),
        j < b@.len(),
    ensures
        r == (a@.remove(i as int) == b@.remove(j as int)),
{
    if a.parts.len() != b.parts.len() {
        assert(a@.remove(i as int).len() != b@.remove(j as int).len());
        return false;
    }
    let n = a.parts.len() - 1;
    let ghost ra = a@.remove(i as int);
    let ghost rb = b@.remove(j as int);
    let mut k: usize = 0;
    while k < n
        invariant
            k <= n,
            n + 1 == a@.len(),
            n + 1 == b@.len(),
            i < a@.len(),
            j < b@.len(),
            ra == a@.remove(i as int),
            rb == b@.remove(j as int),
            forall|t: int| 0 <= t < k ==> ra[t] == rb[t],
        decreases n - k,
    {
        let ka = if k < i { k } else { k + 1 };
        let kb = if k < j { k } else { k + 1 };
        assert(ra[k as int] == a@[ka as int]);
        assert(rb[k as int] == b@[kb as int]);
        assert(a@[ka as int] == a.parts@[ka as int]@);
        assert(b@[kb as int] == b.parts@[kb as int]@);
        if a.parts[ka].gtype != b.parts[kb].gtype || !a.parts[ka].group.same_as(&b.parts[kb].group) {
            assert(ra[k as int] != rb[k as int]);
            return false;
        }
        k += 1;
    }
    assert(ra =~= rb);
    true
}

/// Whether `a` and `b` are one part apart at `i` and `j`.
fn apart_at(a: &Line, b: &Line, i: usize, j: usize) -> (r: bool)
    requires
        i < a@.len(),
        j < b@.len(),
    ensures
        r == one_part_apart(a@, b@, i as int, j as int),
{
    assert(a@[i as int] == a.parts@[i as int]@);
    assert(b@[j as int] == b.parts@[j as int]@);
    if a.parts[i].gtype != GroupType::Many(1) || b.parts[j].gtype != GroupType::Many(1) {
        return false;
    }
    if a.parts[i].group.same_as(&b.parts[j].group) {
        return false;
    }
    equal_without(a, i, b, j)
}

/// The join of `a` and `b` one part apart at `i` and `j`, in normal form.
fn joined_line(a: &Line, b: &Line, i: usize, j: usize) -> (r: Line)
    requires
        a.wf(),
        b.wf(),
        one_part_apart(a@, b@, i as int, j as int),
    ensures
        r.wf(),
        normalized_from(r@, joined_at(a@, b@, i as int, j as int)),
        degree_spec(r@) == degree_spec(a@),
        no_zero(r@),
{
    assert(a@[i as int] == a.parts@[i as int]@);
    assert(b@[j as int] == b.parts@[j as int]@);
    let g = a.parts[i].group.union(&b.parts[j].group);
    proof {
        crate::edit::lemma_sorted_of(g@);
    }
    let ghost np = (GroupType::Many(1), g@);
    let mut parts = crate::line::copy_parts(&a.parts);
    parts.set(i, Part { gtype: GroupType::Many(1), group: g });
    let ghost raw = joined_at(a@, b@, i as int, j as int);
    assert(parts_view(parts@) =~= raw);
    proof {
        crate::normalize::lemma_degree_update(a@, i as int, np);
        crate::lines_trivial::lemma_star_update(a@, i as int, np);
    }
    let mut l = Line { parts };
    proof {
        assert(l@ == raw);
        assert forall|q: int| 0 <= q < l@.len() implies strictly_sorted(#[trigger] l@[q].1) by {
            if q != i as int {
                assert(l@[q] == a@[q]);
            }
        }
    }
    l.normalize();
    proof {
        lemma_normalized_no_zero(l@, raw);
    }
    l
}

/// The join of `a` and `b` at `i` and `j` when they are one part apart there
/// and it includes both.
fn join_if_including(a: &Line, b: &Line, i: usize, j: usize) -> (r: Option<Line>)
    requires
        a.wf(),
        b.wf(),
        degree_spec(a@) == degree_spec(b@),
        i < a@.len(),
        j < b@.len(),
    ensures
        r is None ==> pair_not_joinable(a@, b@, i as int, j as int),
        r matches Some(m) ==> m.wf() && degree_spec(m@) == degree_spec(a@) && no_zero(m@)
            && one_part_apart(a@, b@, i as int, j as int)
            && normalized_from(m@, joined_at(a@, b@, i as int, j as int))
            && included(m@, a@) && included(m@, b@),
{
    if !apart_at(a, b, i, j) {
        return None;
    }
    let m = joined_line(a, b, i, j);
    proof {
        crate::constraint::lemma_same_degree_fits(m@, a@);
        crate::constraint::lemma_same_degree_fits(m@, b@);
    }
    if m.includes(a) && m.includes(b) {
        Some(m)
    } else {
        proof {
            assert forall|m2: Seq<PartV>| #[trigger] normalized_from(m2, joined_at(a@, b@, i as int, j as int))
                implies !(included(m2, a@) && included(m2, b@)) by {
                crate::edit::lemma_normal_form_unique(m2, m@, joined_at(a@, b@, i as int, j as int));
            }
        }
        None
    }
}

/// Two lines one part apart whose join includes both, with the join.
fn find_joinable(ls: &Vec<Line>, d: Degree) -> (r: Option<(usize, usize, Line)>)
    requires
        lines_wf(ls@, d),
    ensures
        r is None ==> no_joinable_pair(lines_view(ls@)),
        r matches Some((x, y, m)) ==> x < ls@.len() && y < ls@.len() && x != y && m.wf()
            && degree_spec(m@) == d && no_zero(m@)
            && included(m@, ls@[x as int]@) && included(m@, ls@[y as int]@),
{
    let ghost lv = lines_view(ls@);
    let n = ls.len();
    let mut x: usize = 0;
    while x < n
        invariant
            x <= n,
            n == ls@.len(),
            lv == lines_view(ls@),
            lines_wf(ls@, d),
            forall|a: int, b: int, i: int, j: int| 0 <= a < x && 0 <= b < n && a != b ==> #[trigger] pair_not_joinable(lv[a], lv[b], i, j),
        decreases n - x,
    {
        let mut y: usize = 0;
        while y < n
            invariant
                x < n,
                y <= n,
                n == ls@.len(),
                lv == lines_view(ls@),
                lines_wf(ls@, d),
                forall|a: int, b: int, i: int, j: int| 0 <= a < x && 0 <= b < n && a != b ==> #[trigger] pair_not_joinable(lv[a], lv[b], i, j),
                forall|b: int, i: int, j: int| 0 <= b < y && x != b ==> #[trigger] pair_not_joinable(lv[x as int], lv[b], i, j),
            decreases n - y,
        {
            if x != y {
                let a = &ls[x];
                let b = &ls[y];
                assert(a.wf() && b.wf());
                assert(lv[x as int] == a@ && lv[y as int] == b@);
                let mut i: usize = 0;
                while i < a.parts.len()
                    invariant
                        x < n,
                        y < n,
                        x != y,
                        n == ls@.len(),
                        lv == lines_view(ls@),
                        lines_wf(ls@, d),
                        a == &ls@[x as int],
                        b == &ls@[y as int],
                        i <= a@.len(),
                        forall|a2: int, b2: int, i2: int, j2: int| 0 <= a2 < x && 0 <= b2 < n && a2 != b2 ==> #[trigger] pair_not_joinable(lv[a2], lv[b2], i2, j2),
                        forall|b2: int, i2: int, j2: int| 0 <= b2 < y && x != b2 ==> #[trigger] pair_not_joinable(lv[x as int], lv[b2], i2, j2),
                        forall|i2: int, j2: int| 0 <= i2 < i ==> #[trigger] pair_not_joinable(lv[x as int], lv[y as int], i2, j2),
                    decreases a@.len() - i,
                {
                    let mut j: usize = 0;
                    while j < b.parts.len()
                        invariant
                            x < n,
                            y < n,
                            x != y,
                            n == ls@.len(),
                            lv == lines_view(ls@),
                            lines_wf(ls@, d),
                            a == &ls@[x as int],
                            b == &ls@[y as int],
                            i < a@.len(),
                            j <= b@.len(),
                            forall|a2: int, b2: int, i2: int, j2: int| 0 <= a2 < x && 0 <= b2 < n && a2 != b2 ==> #[trigger] pair_not_joinable(lv[a2], lv[b2], i2, j2),
                            forall|b2: int, i2: int, j2: int| 0 <= b2 < y && x != b2 ==> #[trigger] pair_not_joinable(lv[x as int], lv[b2], i2, j2),
                            forall|i2: int, j2: int| 0 <= i2 < i ==> #[trigger] pair_not_joinable(lv[x as int], lv[y as int], i2, j2),
                            forall|j2: int| 0 <= j2 < j ==> #[trigger] pair_not_joinable(lv[x as int], lv[y as int], i as int, j2),
                        decreases b@.len() - j,
                    {
                        assert(ls@[x as int].wf() && ls@[y as int].wf());
                        match join_if_including(a, b, i, j) {
                            Some(m) => {
                                return Some((x, y, m));
                            },
                            None => {},
                        }
                        j += 1;
                    }
                    proof {
                        assert forall|j2: int| #![trigger pair_not_joinable(lv[x as int], lv[y as int], i as int, j2)]
                            true implies pair_not_joinable(lv[x as int], lv[y as int], i as int, j2) by {
                            if !(0 <= j2 < b@.len()) {
                                assert(!one_part_apart(lv[x as int], lv[y as int], i as int, j2));
                            }
                        }
                    }
                    i += 1;
                }
                proof {
                    assert forall|i2: int, j2: int| #![trigger pair_not_joinable(lv[x as int], lv[y as int], i2, j2)]
                        true implies pair_not_joinable(lv[x as int], lv[y as int], i2, j2) by {
                        if !(0 <= i2 < a@.len()) {
                            assert(!one_part_apart(lv[x as int], lv[y as int], i2, j2));
                        }
                    }
                }
            }
            y += 1;
        }
        x += 1;
    }
    None
}

/// The join of lines `x` and `y` of `ns` at `i` and `j`, when they are one
/// part apart there and it includes both, is covered by `ls`.
pub open spec fn join_done(ns: Seq<Seq<PartV>>, ls: Seq<Seq<PartV>>, x: int, y: int, i: int, j: int) -> bool {
    forall|m: Seq<PartV>| one_part_apart(ns[x], ns[y], i, j)
        && #[trigger] normalized_from(m, joined_at(ns[x], ns[y], i, j))
        && included(m, ns[x]) && included(m, ns[y])
        ==> covered_by(ls, m)
}

proof fn lemma_join_done_moves(ns: Seq<Seq<PartV>>, ls: Seq<Seq<PartV>>, ls2: Seq<Seq<PartV>>, x: int, y: int, i: int, j: int)
    requires
        join_done(ns, ls, x, y, i, j),
        forall|z: Seq<PartV>| #[trigger] covered_by(ls, z) ==> covered_by(ls2, z),
    ensures
        join_done(ns, ls2, x, y, i, j),
{
    assert forall|m: Seq<PartV>| one_part_apart(ns[x], ns[y], i, j)
        && #[trigger] normalized_from(m, joined_at(ns[x], ns[y], i, j))
        && included(m, ns[x]) && included(m, ns[y])
        implies covered_by(ls2, m) by {
        assert(covered_by(ls, m));
    }
}

/// Adds, where no line equals it already, the join of any two of the lines
/// `ns` one part apart that includes both.
fn cover_joins(c: &mut Constraint, ns: &Vec<Line>)
    requires
        old(c).wf(),
        lines_wf(ns@, old(c).degree),
        forall|k: int| 0 <= k < old(c)@.len() ==> no_zero(#[trigger] old(c)@[k]),
    ensures
        final(c).wf(),
        final(c).degree == old(c).degree,
        forall|k: int| 0 <= k < final(c)@.len() ==> no_zero(#[trigger] final(c)@[k]),
        forall|z: Seq<PartV>| #[trigger] covered_by(old(c)@, z) ==> covered_by(final(c)@, z),
        joins_covered(lines_view(ns@), final(c)@),
{
    let ghost nv = lines_view(ns@);
    let d = c.degree;
    let n = ns.len();
    let mut x: usize = 0;
    while x < n
        invariant
            x <= n,
            n == ns@.len(),
            nv == lines_view(ns@),
            lines_wf(ns@, d),
            c.wf(),
            c.degree == d,
            d == old(c).degree,
            forall|k: int| 0 <= k < c@.len() ==> no_zero(#[trigger] c@[k]),
            forall|z: Seq<PartV>| #[trigger] covered_by(old(c)@, z) ==> covered_by(c@, z),
            forall|a: int, b: int, i: int, j: int| 0 <= a < x && 0 <= b < n ==> #[trigger] join_done(nv, c@, a, b, i, j),
        decreases n - x,
    {
        let mut y: usize = 0;
        while y < n
            invariant
                x < n,
                y <= n,
                n == ns@.len(),
                nv == lines_view(ns@),
                lines_wf(ns@, d),
                c.wf(),
                c.degree == d,
                d == old(c).degree,
                forall|k: int| 0 <= k < c@.len() ==> no_zero(#[trigger] c@[k]),
                forall|z: Seq<PartV>| #[trigger] covered_by(old(c)@, z) ==> covered_by(c@, z),
                forall|a: int, b: int, i: int, j: int| 0 <= a < x && 0 <= b < n ==> #[trigger] join_done(nv, c@, a, b, i, j),
                forall|b: int, i: int, j: int| 0 <= b < y ==> #[trigger] join_done(nv, c@, x as int, b, i, j),
            decreases n - y,
        {
            let a = &ns[x];
            let b = &ns[y];
            assert(nv[x as int] == a@ && nv[y as int] == b@);
            let mut i: usize = 0;
            while i < a.parts.len()
                invariant
                    x < n,
                    y < n,
                    n == ns@.len(),
                    nv == lines_view(ns@),
                    lines_wf(ns@, d),
                    a == &ns@[x as int],
                    b == &ns@[y as int],
                    i <= a@.len(),
                    c.wf(),
                    c.degree == d,
                    d == old(c).degree,
                    forall|k: int| 0 <= k < c@.len() ==> no_zero(#[trigger] c@[k]),
                    forall|z: Seq<PartV>| #[trigger] covered_by(old(c)@, z) ==> covered_by(c@, z),
                    forall|a2: int, b2: int, i2: int, j2: int| 0 <= a2 < x && 0 <= b2 < n ==> #[trigger] join_done(nv, c@, a2, b2, i2, j2),
                    forall|b2: int, i2: int, j2: int| 0 <= b2 < y ==> #[trigger] join_done(nv, c@, x as int, b2, i2, j2),
                    forall|i2: int, j2: int| 0 <= i2 < i ==> #[trigger] join_done(nv, c@, x as int, y as int, i2, j2),
                decreases a@.len() - i,
            {
                let mut j: usize = 0;
                while j < b.parts.len()
                    invariant
                        x < n,
                        y < n,
                        n == ns@.len(),
                        nv == lines_view(ns@),
                        lines_wf(ns@, d),
                        a == &ns@[x as int],
                        b == &ns@[y as int],
                        i < a@.len(),
                        j <= b@.len(),
                        c.wf(),
                        c.degree == d,
                        d == old(c).degree,
                        forall|k: int| 0 <= k < c@.len() ==> no_zero(#[trigger] c@[k]),
                        forall|z: Seq<PartV>| #[trigger] covered_by(old(c)@, z) ==> covered_by(c@, z),
                        forall|a2: int, b2: int, i2: int, j2: int| 0 <= a2 < x && 0 <= b2 < n ==> #[trigger] join_done(nv, c@, a2, b2, i2, j2),
                        forall|b2: int, i2: int, j2: int| 0 <= b2 < y ==> #[trigger] join_done(nv, c@, x as int, b2, i2, j2),
                        forall|i2: int, j2: int| 0 <= i2 < i ==> #[trigger] join_done(nv, c@, x as int, y as int, i2, j2),
                        forall|j2: int| 0 <= j2 < j ==> #[trigger] join_done(nv, c@, x as int, y as int, i as int, j2),
                    decreases b@.len() - j,
                {
                    assert(ns@[x as int].wf() && ns@[y as int].wf());
                    match join_if_including(a, b, i, j) {
                        Some(m) => {
                            match find_line(&c.lines, &m) {
                                Some(p) => {
                                    proof {
                                        assert(c@[p as int] == m@);
                                        assert(c@.contains(m@));
                                        assert(chain_included(c@, m@, 0));
                                        assert forall|m2: Seq<PartV>| one_part_apart(nv[x as int], nv[y as int], i as int, j as int)
                                            && #[trigger] normalized_from(m2, joined_at(nv[x as int], nv[y as int], i as int, j as int))
                                            && included(m2, nv[x as int]) && included(m2, nv[y as int])
                                            implies covered_by(c@, m2) by {
                                            crate::edit::lemma_normal_form_unique(m2, m@, joined_at(a@, b@, i as int, j as int));
                                        }
                                        assert(join_done(nv, c@, x as int, y as int, i as int, j as int));
                                    }
                                },
                                None => {
                                    let ghost before = c@;
                                    let ghost mv = m@;
                                    c.add_line_and_discard_non_maximal(m);
                                    proof {
                                        lemma_add_line_covers(before, mv);
                                        lemma_add_line_from(before, mv);
                                        assert forall|k: int| 0 <= k < c@.len() implies no_zero(#[trigger] c@[k]) by {
                                            if c@[k] != mv {
                                                let q = choose|q: int| 0 <= q < before.len() && before[q] == c@[k];
                                                assert(no_zero(before[q]));
                                            }
                                        }
                                        assert forall|z: Seq<PartV>| #[trigger] covered_by(old(c)@, z) implies covered_by(c@, z) by {
                                            assert(covered_by(before, z));
                                        }
                                        assert forall|a2: int, b2: int, i2: int, j2: int| 0 <= a2 < x && 0 <= b2 < n
                                            implies #[trigger] join_done(nv, c@, a2, b2, i2, j2) by {
                                            lemma_join_done_moves(nv, before, c@, a2, b2, i2, j2);
                                        }
                                        assert forall|b2: int, i2: int, j2: int| 0 <= b2 < y
                                            implies #[trigger] join_done(nv, c@, x as int, b2, i2, j2) by {
                                            lemma_join_done_moves(nv, before, c@, x as int, b2, i2, j2);
                                        }
                                        assert forall|i2: int, j2: int| 0 <= i2 < i
                                            implies #[trigger] join_done(nv, c@, x as int, y as int, i2, j2) by {
                                            lemma_join_done_moves(nv, before, c@, x as int, y as int, i2, j2);
                                        }
                                        assert forall|j2: int| 0 <= j2 < j
                                            implies #[trigger] join_done(nv, c@, x as int, y as int, i as int, j2) by {
                                            lemma_join_done_moves(nv, before, c@, x as int, y as int, i as int, j2);
                                        }
                                        assert forall|m2: Seq<PartV>| one_part_apart(nv[x as int], nv[y as int], i as int, j as int)
                                            && #[trigger] normalized_from(m2, joined_at(nv[x as int], nv[y as int], i as int, j as int))
                                            && included(m2, nv[x as int]) && included(m2, nv[y as int])
                                            implies covered_by(c@, m2) by {
                                            crate::edit::lemma_normal_form_unique(m2, mv, joined_at(a@, b@, i as int, j as int));
                                        }
                                        assert(join_done(nv, c@, x as int, y as int, i as int, j as int));
                                    }
                                },
                            }
                        },
                        None => {
                            assert(join_done(nv, c@, x as int, y as int, i as int, j as int));
                        },
                    }
                    j += 1;
                }
                proof {
                    assert forall|j2: int| #![trigger join_done(nv, c@, x as int, y as int, i as int, j2)]
                        true implies join_done(nv, c@, x as int, y as int, i as int, j2) by {
                        if !(0 <= j2 < b@.len()) {
                            assert(!one_part_apart(nv[x as int], nv[y as int], i as int, j2));
                        }
                    }
                }
                i += 1;
            }
            proof {
                assert forall|i2: int, j2: int| #![trigger join_done(nv, c@, x as int, y as int, i2, j2)]
                    true implies join_done(nv, c@, x as int, y as int, i2, j2) by {
                    if !(0 <= i2 < a@.len()) {
                        assert(!one_part_apart(nv[x as int], nv[y as int], i2, j2));
                    }
                }
            }
            y += 1;
        }
        x += 1;
    }
    proof {
        assert forall|x2: int, y2: int, i: int, j: int, m: Seq<PartV>| 0 <= x2 < nv.len() && 0 <= y2 < nv.len()
            && #[trigger] one_part_apart(nv[x2], nv[y2], i, j)
            && #[trigger] normalized_from(m, joined_at(nv[x2], nv[y2], i, j))
            && included(m, nv[x2]) && included(m, nv[y2])
            implies covered_by(c@, m) by {
            assert(join_done(nv, c@, x2, y2, i, j));
        }
    }
}

/// `m` is what maximizing the constraint `c` gives, as this library states
/// it: a well-formed constraint of the same degree, marked maximized, equal to
/// `c` when `c` was maximized already or has no lines, and otherwise with no
/// part of exponent zero.
pub open spec fn maximized_from(c: Constraint, m: Constraint) -> bool {
    &&& m.wf()
    &&& m.degree == c.degree
    &&& m.is_maximized
    &&& (c.is_maximized || c@.len() == 0 ==> m@ == c@)
    &&& (!c.is_maximized ==> forall|k: int| 0 <= k < m@.len() ==> no_zero(#[trigger] m@[k]))
    &&& (!c.is_maximized ==> normal_lines_covered(c@, m@, c@.len() as int))
    &&& (!c.is_maximized ==> no_joinable_pair(m@))
    &&& (!c.is_maximized ==> exists|ns: Seq<Seq<PartV>>| #![trigger joins_covered(ns, m@)] ns.len() == c@.len()
        && (forall|k: int| 0 <= k < ns.len() ==> normalized_from(#[trigger] ns[k], c@[k]))
        && joins_covered(ns, m@))
}

/// Each of the first `upto` lines of `raw`, in normal form, is included by a
/// line of `ls` through a chain of inclusions.
pub open spec fn normal_lines_covered(raw: Seq<Seq<PartV>>, ls: Seq<Seq<PartV>>, upto: int) -> bool {
    forall|k: int| 0 <= k < upto ==> #[trigger] normal_covered(raw[k], ls)
}

/// Line `l`, in normal form, is included by a line of `ls` through a chain
/// of inclusions.
pub open spec fn normal_covered(l: Seq<PartV>, ls: Seq<Seq<PartV>>) -> bool {
    exists|x: Seq<PartV>| #[trigger] normalized_from(x, l) && covered_by(ls, x)
}

/// What `ls` covers, `ls2` covers too, so the lines of `raw` stay covered.
proof fn lemma_covered_moves(raw: Seq<Seq<PartV>>, ls: Seq<Seq<PartV>>, ls2: Seq<Seq<PartV>>, upto: int)
    requires
        normal_lines_covered(raw, ls, upto),
        forall|x: Seq<PartV>| #[trigger] covered_by(ls, x) ==> covered_by(ls2, x),
    ensures
        normal_lines_covered(raw, ls2, upto),
{
    assert forall|k: int| 0 <= k < upto implies #[trigger] normal_covered(raw[k], ls2) by {
        assert(normal_covered(raw[k], ls));
        let x = choose|x: Seq<PartV>| #[trigger] normalized_from(x, raw[k]) && covered_by(ls, x);
        assert(covered_by(ls2, x));
    }
}

impl Constraint {
    /// Makes the lines maximal: round after round, each pair of lines is
    /// combined (each pair of the same two lines once), the new lines are
    /// added, and lines that another line includes are discarded, until a
    /// round changes nothing. The join of two input lines one part apart
    /// that includes both is then added where no line equals it, and two
    /// lines one part apart whose join includes both give way to the join;
    /// on lines that are already maximal, these last two steps change
    /// nothing. A constraint that is marked maximized, or has no lines, is
    /// only marked maximized.
    pub fn maximize(&mut self)
        requires
            old(self).wf(),
        ensures
            maximized_from(*old(self), *final(self)),
    {
        if self.is_maximized || self.lines.len() == 0 {
            self.is_maximized = true;
            proof {
                let e = Seq::<Seq<PartV>>::empty();
                assert(joins_covered(e, self@));
            }
            return;
        }
        let d = self.degree;
        let mut seen: Vec<Line> = Vec::new();
        let mut seen_pairs: Vec<(usize, usize)> = Vec::new();
        let mut lines: Vec<Line> = Vec::new();
        std::mem::swap(&mut lines, &mut self.lines);
        assert(lines_wf(lines@, d));
        let ghost orig = lines_view(lines@);
        assert(orig == old(self)@);
        let mut normals: Vec<Line> = Vec::new();
        let mut i: usize = 0;
        while i < lines.len()
            invariant
                i <= lines@.len(),
                lines_wf(lines@, d),
                orig == lines_view(lines@),
                normals@.len() == i,
                lines_wf(normals@, d),
                forall|k: int| 0 <= k < i ==> normalized_from(#[trigger] normals@[k]@, orig[k]),
                self.wf(),
                self.degree == d,
                forall|k: int| 0 <= k < self@.len() ==> no_zero(#[trigger] self@[k]),
                normal_lines_covered(orig, self@, i as int),
            decreases lines@.len() - i,
        {
            let mut l = lines[i].duplicate();
            let ghost raw = l@;
            l.normalize();
            proof {
                lemma_normalized_no_zero(l@, raw);
                assert(orig[i as int] == raw);
            }
            match find_line(&seen, &l) {
                Some(_) => {},
                None => {
                    seen.push(l.duplicate());
                },
            }
            let ghost nb = normals@;
            normals.push(l.duplicate());
            proof {
                assert forall|k: int| 0 <= k < i + 1 implies normalized_from(#[trigger] normals@[k]@, orig[k]) by {
                    if k < i {
                        assert(normals@[k] == nb[k]);
                    }
                }
            }
            let ghost before = self@;
            let ghost lv = l@;
            self.add_line_and_discard_non_maximal(l);
            proof {
                lemma_add_line_from(before, lv);
                assert forall|k: int| 0 <= k < self@.len() implies no_zero(#[trigger] self@[k]) by {
                    if self@[k] != lv {
                        let q = choose|q: int| 0 <= q < before.len() && before[q] == self@[k];
                        assert(no_zero(before[q]));
                    }
                }
                lemma_add_line_covers(before, lv);
                lemma_covered_moves(orig, before, self@, i as int);
                assert forall|k: int| 0 <= k < i + 1 implies #[trigger] normal_covered(orig[k], self@) by {
                    if k == i {
                        assert(normalized_from(lv, orig[k]));
                    }
                }
            }
            i += 1;
        }
        let mut going = true;
        let mut fuel: u64 = u64::MAX;
        while going && fuel > 0
            invariant
                self.wf(),
                self.degree == d,
                forall|k: int| 0 <= k < self@.len() ==> no_zero(#[trigger] self@[k]),
                normal_lines_covered(orig, self@, orig.len() as int),
            decreases fuel,
        {
            fuel -= 1;
            let snapshot = self.duplicate();
            let cur = &snapshot.lines;
            let mut ids: Vec<usize> = Vec::new();
            let mut a: usize = 0;
            while a < cur.len()
                invariant
                    a <= cur@.len(),
                    ids@.len() == a,
                decreases cur@.len() - a,
            {
                let id = match find_line(&seen, &cur[a]) {
                    Some(p) => if p < usize::MAX { p + 1 } else { 0 },
                    None => 0,
                };
                ids.push(id);
                a += 1;
            }
            let mut kept_pairs: Vec<(usize, usize)> = Vec::new();
            let mut b: usize = 0;
            while b < seen_pairs.len()
                invariant
                    b <= seen_pairs@.len(),
                decreases seen_pairs@.len() - b,
            {
                let pr = seen_pairs[b];
                if has_id(&ids, pr.0) && has_id(&ids, pr.1) {
                    kept_pairs.push(pr);
                }
                b += 1;
            }
            seen_pairs = kept_pairs;
            proof {
                assert forall|k: int, q: int| 0 <= k < cur@.len() && 0 <= q < cur@[k]@.len() implies (#[trigger] cur@[k]@[q]).0 != GroupType::Many(0) by {
                    assert(snapshot@[k] == cur@[k]@);
                    assert(no_zero(snapshot@[k]));
                }
            }
            let without = without_one(cur);
            let mut newc = self.duplicate();
            let mut x: usize = 0;
            while x < cur.len()
                invariant
                    x <= cur@.len(),
                    ids@.len() == cur@.len(),
                    lines_wf(cur@, d),
                    snapshot@ == crate::constraint::lines_view(cur@),
                    forall|k: int| 0 <= k < snapshot@.len() ==> no_zero(#[trigger] snapshot@[k]),
                    without@.len() == cur@.len(),
                    forall|k: int| 0 <= k < without@.len() ==> (#[trigger] without@[k])@.len() == cur@[k]@.len(),
                    forall|k: int, q: int| 0 <= k < without@.len() && 0 <= q < without@[k]@.len() ==> (#[trigger] without@[k]@[q])@ == minus_one(cur@[k]@, q),
                    newc.wf(),
                    newc.degree == d,
                    forall|k: int| 0 <= k < newc@.len() ==> no_zero(#[trigger] newc@[k]),
                    forall|z: Seq<PartV>| #[trigger] covered_by(self@, z) ==> covered_by(newc@, z),
                decreases cur@.len() - x,
            {
                let mut cand = Constraint { lines: Vec::new(), is_maximized: false, degree: d };
                let mut y: usize = 0;
                let lim = x + 1;
                while y < lim
                    invariant
                        x < cur@.len(),
                        lim == x + 1,
                        y <= lim,
                        ids@.len() == cur@.len(),
                        lines_wf(cur@, d),
                        snapshot@ == crate::constraint::lines_view(cur@),
                        forall|k: int| 0 <= k < snapshot@.len() ==> no_zero(#[trigger] snapshot@[k]),
                        without@.len() == cur@.len(),
                        forall|k: int| 0 <= k < without@.len() ==> (#[trigger] without@[k])@.len() == cur@[k]@.len(),
                        forall|k: int, q: int| 0 <= k < without@.len() && 0 <= q < without@[k]@.len() ==> (#[trigger] without@[k]@[q])@ == minus_one(cur@[k]@, q),
                        cand.wf(),
                        cand.degree == d,
                        forall|k: int| 0 <= k < cand@.len() ==> no_zero(#[trigger] cand@[k]),
                    decreases lim - y,
                {
                    let pair = (ids[x], ids[y]);
                    if !has_id_pair(&seen_pairs, pair) && !has_id_pair(&seen_pairs, (pair.1, pair.0)) {
                        seen_pairs.push(pair);
                        proof {
                            assert(cur@[x as int].wf() && cur@[y as int].wf());
                            assert(snapshot@[x as int] == cur@[x as int]@);
                            assert(snapshot@[y as int] == cur@[y as int]@);
                            assert forall|q: int| 0 <= q < without@[x as int]@.len() implies (#[trigger] without@[x as int]@[q]).wf() by {
                                assert(no_zero(snapshot@[x as int]));
                                lemma_minus_one_wf(cur@[x as int]@, q);
                            }
                            assert forall|q: int| 0 <= q < without@[y as int]@.len() implies (#[trigger] without@[y as int]@[q]).wf() by {
                                assert(no_zero(snapshot@[y as int]));
                                lemma_minus_one_wf(cur@[y as int]@, q);
                            }
                        }
                        let news = combine_lines(&cur[x], &cur[y], &without[x], &without[y], &mut seen, d, 100);
                        add_all(&mut cand, &news);
                    }
                    y += 1;
                }
                proof {
                    assert forall|k: int| 0 <= k < cand.lines@.len() implies no_zero(#[trigger] cand.lines@[k]@) by {
                        assert(cand@[k] == cand.lines@[k]@);
                    }
                }
                let ghost mid = newc@;
                add_all(&mut newc, &cand.lines);
                proof {
                    assert forall|z: Seq<PartV>| #[trigger] covered_by(self@, z) implies covered_by(newc@, z) by {
                        assert(covered_by(mid, z));
                    }
                }
                x += 1;
            }
            if constraints_equal(&newc, self) {
                going = false;
            } else {
                proof {
                    lemma_covered_moves(orig, self@, newc@, orig.len() as int);
                }
                *self = newc;
            }
        }
        let ghost before_joins = self@;
        cover_joins(self, &normals);
        proof {
            lemma_covered_moves(orig, before_joins, self@, orig.len() as int);
        }
        let ghost before_apart = self@;
        join_apart_lines(self, Ghost(orig));
        proof {
            lemma_joins_move(lines_view(normals@), before_apart, self@);
            let nv = lines_view(normals@);
            assert forall|k: int| 0 <= k < nv.len() implies normalized_from(#[trigger] nv[k], orig[k]) by {
                assert(nv[k] == normals@[k]@);
            }
            assert(nv.len() == orig.len());
        }
        let ghost ls = self@;
        assert(forall|k: int| 0 <= k < ls.len() ==> no_zero(#[trigger] ls[k]));
        self.is_maximized = true;
        assert(self@ == ls);
    }
}

/// Replaces, as long as there are some, two lines that differ only in one
/// part held once by the line that joins them there, when that line includes
/// both. Lines that are already maximal have no such pair.
fn join_apart_lines(c: &mut Constraint, Ghost(orig): Ghost<Seq<Seq<PartV>>>)
    requires
        old(c).wf(),
        forall|k: int| 0 <= k < old(c)@.len() ==> no_zero(#[trigger] old(c)@[k]),
        normal_lines_covered(orig, old(c)@, orig.len() as int),
    ensures
        final(c).wf(),
        final(c).degree == old(c).degree,
        forall|k: int| 0 <= k < final(c)@.len() ==> no_zero(#[trigger] final(c)@[k]),
        normal_lines_covered(orig, final(c)@, orig.len() as int),
        no_joinable_pair(final(c)@),
        forall|z: Seq<PartV>| #[trigger] covered_by(old(c)@, z) ==> covered_by(final(c)@, z),
{
    let d = c.degree;
    loop
        invariant
            c.wf(),
            c.degree == d,
            d == old(c).degree,
            forall|k: int| 0 <= k < c@.len() ==> no_zero(#[trigger] c@[k]),
            normal_lines_covered(orig, c@, orig.len() as int),
            forall|z: Seq<PartV>| #[trigger] covered_by(old(c)@, z) ==> covered_by(c@, z),
        ensures
            c.wf(),
            c.degree == d,
            forall|k: int| 0 <= k < c@.len() ==> no_zero(#[trigger] c@[k]),
            normal_lines_covered(orig, c@, orig.len() as int),
            no_joinable_pair(c@),
            forall|z: Seq<PartV>| #[trigger] covered_by(old(c)@, z) ==> covered_by(c@, z),
        decreases c.lines@.len(),
    {
        match find_joinable(&c.lines, d) {
            None => {
                assert(lines_view(c.lines@) == c@);
                break;
            },
            Some((x, y, m)) => {
                let ghost old_ls = c@;
                let n = c.lines.len();
                let mut rest: Vec<Line> = Vec::new();
                let mut z: usize = 0;
                while z < n
                    invariant
                        z <= n,
                        n == c.lines@.len(),
                        old_ls == c@,
                        x < n,
                        y < n,
                        x != y,
                        c.wf(),
                        c.degree == d,
                        forall|k: int| 0 <= k < c@.len() ==> no_zero(#[trigger] c@[k]),
                        lines_wf(rest@, d),
                        forall|k: int| 0 <= k < rest@.len() ==> no_zero(#[trigger] rest@[k]@),
                        rest@.len() + (if x < z { 1int } else { 0int }) + (if y < z { 1int } else { 0int }) == z,
                        forall|t: int| 0 <= t < z && t != x && t != y ==> lines_view(rest@).contains(#[trigger] old_ls[t]),
                    decreases n - z,
                {
                    if z != x && z != y {
                        let l = c.lines[z].duplicate();
                        let ghost before = rest@;
                        rest.push(l);
                        proof {
                            assert(old_ls[z as int] == c.lines@[z as int]@);
                            assert(lines_view(rest@) =~= lines_view(before).push(l@));
                            assert forall|t: int| 0 <= t < z + 1 && t != x && t != y implies lines_view(rest@).contains(#[trigger] old_ls[t]) by {
                                if t < z {
                                    let q = choose|q: int| 0 <= q < lines_view(before).len() && lines_view(before)[q] == old_ls[t];
                                    assert(lines_view(rest@)[q] == old_ls[t]);
                                } else {
                                    assert(lines_view(rest@)[before.len() as int] == old_ls[t]);
                                }
                            }
                            assert(c@[z as int] == old_ls[z as int]);
                        }
                    }
                    z += 1;
                }
                let ghost rv = lines_view(rest@);
                let ghost mv = m@;
                c.lines = rest;
                assert(c@ == rv);
                c.add_line_and_discard_non_maximal(m);
                proof {
                    crate::constraint::lemma_add_line_len(rv, mv);
                    lemma_add_line_from(rv, mv);
                    lemma_add_line_covers(rv, mv);
                    assert forall|k: int| 0 <= k < c@.len() implies no_zero(#[trigger] c@[k]) by {
                        if c@[k] != mv {
                            let q = choose|q: int| 0 <= q < rv.len() && rv[q] == c@[k];
                            assert(rv[q] == rest@[q]@);
                        }
                    }
                    assert forall|zl: Seq<PartV>| old_ls.contains(zl) implies #[trigger] covered_by(c@, zl) by {
                        let t = choose|t: int| 0 <= t < old_ls.len() && old_ls[t] == zl;
                        if t != x as int && t != y as int {
                            assert(rv.contains(old_ls[t]));
                            assert(chain_included(rv, zl, 0));
                            assert(covered_by(rv, zl));
                        } else {
                            assert(covered_by(c@, mv));
                            let k = choose|k: nat| #[trigger] chain_included(c@, mv, k);
                            assert(included(mv, zl));
                            assert(chain_included(c@, zl, k + 1));
                        }
                    }
                    crate::constraint::lemma_covers_moves(old_ls, c@);
                    lemma_covered_moves(orig, old_ls, c@, orig.len() as int);
                    assert forall|z: Seq<PartV>| #[trigger] covered_by(old(c)@, z) implies covered_by(c@, z) by {
                        assert(covered_by(old_ls, z));
                    }
                }
            },
        }
    }
}

} // verus!
