use vstd::prelude::*;

use crate::choices::{distinct_sorted, lex_sorted, sort_label_vecs, vecs_view};
use crate::clique::{adj_simple, adj_view, is_clique_of, Graph};
use crate::constraint::{constraint_includes, Constraint};
use crate::group::{copy_labels, Group, GroupType, Label};
use crate::line::{degree_spec, Degree, Line, PartV};
use crate::part::Part;
use crate::problem::Problem;
use crate::triviality::minimal_list;

verus! {

/// The entries of the upper triangle of `comp` that join `a` and `b`.
pub open spec fn joined(comp: Seq<Seq<bool>>, a: int, b: int) -> bool {
    a != b && (if a < b { comp[a][b] } else { comp[b][a] })
}

/// `comp` has a row of `n` entries for each of `n` vertices.
pub open spec fn square(comp: Seq<Seq<bool>>, n: int) -> bool {
    &&& comp.len() == n
    &&& forall|i: int| 0 <= i < n ==> (#[trigger] comp[i]).len() == n
}

/// The views of the rows of a boolean matrix.
pub open spec fn bool_rows(m: Seq<Vec<bool>>) -> Seq<Seq<bool>> {
    m.map_values(|r: Vec<bool>| r@)
}

/// The adjacency lists of the graph whose edges the upper triangle of `comp`
/// gives: the list of `a` holds, in increasing order, the vertices joined to
/// it.
pub fn upper_adjacency(comp: &Vec<Vec<bool>>) -> (r: Vec<Vec<usize>>)
    requires
        square(bool_rows(comp@), comp@.len() as int),
    ensures
        r@.len() == comp@.len(),
        adj_simple(adj_view(r@)),
        forall|a: int, b: int| 0 <= a < r@.len() && 0 <= b < r@.len() ==>
            (#[trigger] adj_view(r@)[a].contains(b as usize) <==> joined(bool_rows(comp@), a, b)),
{
    let n = comp.len();
    let ghost cv = bool_rows(comp@);
    let mut adj: Vec<Vec<usize>> = Vec::new();
    let mut a: usize = 0;
    while a < n
        invariant
            a <= n,
            n == comp@.len(),
            cv == bool_rows(comp@),
            square(cv, n as int),
            adj@.len() == a,
            forall|p: int, i: int| 0 <= p < a && 0 <= i < adj@[p]@.len() ==> (#[trigger] adj@[p]@[i]) < n,
            forall|p: int, i: int, j: int| 0 <= p < a && 0 <= i < j < adj@[p]@.len() ==> (#[trigger] adj@[p]@[i]) < (#[trigger] adj@[p]@[j]),
            forall|p: int, b: int| 0 <= p < a && 0 <= b < n ==> ((#[trigger] adj@[p]@.contains(b as usize)) <==> joined(cv, p, b)),
        decreases n - a,
    {
        let mut row: Vec<usize> = Vec::new();
        let mut b: usize = 0;
        while b < n
            invariant
                a < n,
                b <= n,
                n == comp@.len(),
                cv == bool_rows(comp@),
                square(cv, n as int),
                forall|i: int| 0 <= i < row@.len() ==> (#[trigger] row@[i]) < b,
                forall|i: int, j: int| 0 <= i < j < row@.len() ==> (#[trigger] row@[i]) < (#[trigger] row@[j]),
                forall|c: int| 0 <= c < n ==> ((#[trigger] row@.contains(c as usize)) <==> (c < b && joined(cv, a as int, c))),
            decreases n - b,
        {
            let j = if a < b {
                assert(cv[a as int] == comp@[a as int]@);
                comp[a][b]
            } else if b < a {
                assert(cv[b as int] == comp@[b as int]@);
                comp[b][a]
            } else {
                false
            };
            let ghost before = row@;
            if j {
                row.push(b);
            }
            proof {
                assert forall|c: int| 0 <= c < n implies ((#[trigger] row@.contains(c as usize)) <==> (c < b + 1 && joined(cv, a as int, c))) by {
                    if j {
                        if row@.contains(c as usize) && c != b {
                            let t = choose|t: int| 0 <= t < row@.len() && row@[t] == c as usize;
                            assert(t < before.len());
                            assert(before.contains(c as usize));
                        }
                        if before.contains(c as usize) {
                            let t = choose|t: int| 0 <= t < before.len() && before[t] == c as usize;
                            assert(row@[t] == c as usize);
                        }
                        if c == b {
                            assert(row@[before.len() as int] == b);
                        }
                    }
                }
            }
            b += 1;
        }
        let ghost before = adj@;
        adj.push(row);
        proof {
            assert forall|p: int, b: int| 0 <= p < a + 1 && 0 <= b < n implies ((#[trigger] adj@[p]@.contains(b as usize)) <==> joined(cv, p, b)) by {
                if p < a {
                    assert(adj@[p] == before[p]);
                }
            }
        }
        a += 1;
    }
    proof {
        let av = adj_view(adj@);
        assert forall|p: int| 0 <= p < av.len() implies (#[trigger] av[p]) == adj@[p]@ by {}
        assert forall|p: int| 0 <= p < av.len() implies (#[trigger] av[p]).no_duplicates() by {
            assert(av[p] == adj@[p]@);
            assert forall|i: int, j: int| 0 <= i < av[p].len() && 0 <= j < av[p].len() && i != j implies av[p][i] != av[p][j] by {
                if i < j {
                    assert(adj@[p]@[i] < adj@[p]@[j]);
                } else {
                    assert(adj@[p]@[j] < adj@[p]@[i]);
                }
            }
        }
        assert forall|p: int, i: int| 0 <= p < av.len() && 0 <= i < av[p].len() implies (#[trigger] av[p][i]) < av.len() by {
            assert(av[p] == adj@[p]@);
        }
        assert forall|p: int, q: int| 0 <= p < av.len() && 0 <= q < av.len() implies
            (#[trigger] av[p].contains(q as usize) <==> #[trigger] av[q].contains(p as usize)) by {
            assert(av[p] == adj@[p]@ && av[q] == adj@[q]@);
            assert(adj@[p]@.contains(q as usize) <==> joined(cv, p, q));
            assert(adj@[q]@.contains(p as usize) <==> joined(cv, q, p));
        }
        assert forall|p: int, q: int| 0 <= p < av.len() && 0 <= q < av.len() implies
            (#[trigger] av[p].contains(q as usize) <==> joined(cv, p, q)) by {
            assert(av[p] == adj@[p]@);
        }
    }
    adj
}

/// The line of two groups, each occurring once.
pub open spec fn pair_line(a: Seq<Label>, b: Seq<Label>) -> Seq<PartV> {
    seq![(GroupType::Many(1), a), (GroupType::Many(1), b)]
}

/// The line of two groups, each occurring once.
pub fn make_pair_line(a: &Vec<Label>, b: &Vec<Label>) -> (r: Line)
    requires
        crate::group::strictly_sorted(a@),
        crate::group::strictly_sorted(b@),
    ensures
        r.wf(),
        r@ == pair_line(a@, b@),
        degree_spec(r@) == Degree::Finite(2),
{
    let mut parts: Vec<Part> = Vec::new();
    parts.push(Part { gtype: GroupType::one(), group: Group(copy_labels(a)) });
    parts.push(Part { gtype: GroupType::one(), group: Group(copy_labels(b)) });
    let r = Line { parts };
    proof {
        assert(r@ =~= pair_line(a@, b@));
        let ps = r@;
        let p0 = (GroupType::Many(1), a@);
        let p1 = (GroupType::Many(1), b@);
        assert(ps =~= seq![p0] + seq![p1]);
        crate::normalize::lemma_degree_concat(seq![p0], seq![p1]);
        crate::normalize::lemma_degree_single(p0);
        crate::normalize::lemma_degree_single(p1);
        assert(crate::line::degree_without_star_spec(ps) == 2);
        assert(!crate::line::has_star_spec(ps)) by {
            if crate::line::has_star_spec(ps) {
                let k = choose|k: int| 0 <= k < ps.len() && (#[trigger] ps[k]).0 == GroupType::Star;
            }
        }
    }
    r
}

/// Whether the constraint, of degree two, allows the line of the two groups.
pub(crate) fn allows_pair(c: &Constraint, a: &Vec<Label>, b: &Vec<Label>) -> (r: bool)
    requires
        c.wf(),
        c.degree == Degree::Finite(2),
        crate::group::strictly_sorted(a@),
        crate::group::strictly_sorted(b@),
    ensures
        r == constraint_includes(*c, pair_line(a@, b@)),
{
    let l = make_pair_line(a, b);
    proof {
        crate::constraint::lemma_same_degree_defined(*c, l@);
    }
    c.includes(&l)
}

/// The sets `sets[x]` for the vertices `x` of `idx`.
pub open spec fn picked(sets: Seq<Seq<Label>>, idx: Seq<usize>) -> Set<Seq<Label>> {
    Set::new(|s: Seq<Label>| exists|k: int| 0 <= k < idx.len() && s == sets[#[trigger] idx[k] as int])
}

/// The constraint allows the sets at positions `a` and `b` together on an
/// edge, the set at the smaller position first.
pub open spec fn compatible(c: Constraint, sets: Seq<Seq<Label>>, a: int, b: int) -> bool {
    if a < b {
        constraint_includes(c, pair_line(sets[a], sets[b]))
    } else {
        constraint_includes(c, pair_line(sets[b], sets[a]))
    }
}

/// `idx` lists distinct positions of `sets`, any two of which the
/// constraint allows together on an edge.
pub open spec fn compatible_clique(c: Constraint, sets: Seq<Seq<Label>>, idx: Seq<usize>) -> bool {
    &&& forall|k: int| 0 <= k < idx.len() ==> (#[trigger] idx[k]) < sets.len()
    &&& forall|k: int, l: int| 0 <= k < idx.len() && 0 <= l < idx.len() && k != l ==> #[trigger] idx[k] != #[trigger] idx[l]
        && compatible(c, sets, idx[k] as int, idx[l] as int)
}

/// `n` is `o` with the passive side maximized and the coloring sets computed:
/// the labels of a largest clique of minimal choice sets, any two of which
/// the maximized passive side allows on an edge, in increasing order (none
/// computed only when there are at least 2^30 minimal sets).
pub open spec fn coloring_computed(o: Problem, n: Problem) -> bool {
    &&& n.active == o.active
    &&& n.passive.wf()
    &&& crate::maximize::maximized_from(o.passive, n.passive)
    &&& n.passive.degree == o.passive.degree
    &&& n == (Problem { passive: n.passive, coloring_sets: n.coloring_sets, ..o })
    &&& (n.coloring_sets is None ==> exists|ms: Seq<Seq<Label>>|
        #[trigger] minimal_list(ms, o.active@) && ms.len() >= 0x4000_0000)
    &&& (n.coloring_sets matches Some(v) ==> exists|ms: Seq<Seq<Label>>, idx: Seq<usize>|
        #![trigger minimal_list(ms, o.active@), picked(ms, idx)]
        minimal_list(ms, o.active@)
        && compatible_clique(n.passive, ms, idx)
        && vecs_view(v@).to_set() == picked(ms, idx)
        && lex_sorted(vecs_view(v@))
        && forall|idx2: Seq<usize>| #[trigger] compatible_clique(n.passive, ms, idx2) && idx2.len() >= 2
            ==> idx2.len() <= idx.len())
}

impl Problem {
    /// Finds sets of labels that make the problem solvable in no rounds given
    /// a proper coloring: a largest family of minimal choice sets of the
    /// active side any two of which the passive side allows on an edge. The
    /// passive side, of degree two, is maximized first.
    pub fn compute_coloring_solvability(&mut self)
        requires
            old(self).passive.degree == Degree::Finite(2),
            old(self).coloring_sets is None,
            old(self).active.wf(),
            old(self).passive.wf(),
        ensures
            coloring_computed(*old(self), *final(self)),
    {
        self.passive.maximize();
        let sets = self.active.minimal_sets_of_all_choices();
        let ghost sv = vecs_view(sets@);
        let n = sets.len();
        let mut comp: Vec<Vec<bool>> = Vec::new();
        let mut any = false;
        let mut i: usize = 0;
        while i < n
            invariant
                i <= n,
                n == sets@.len(),
                sv == vecs_view(sets@),
                distinct_sorted(sv),
                self.passive.wf(),
                self.passive.degree == Degree::Finite(2),
                comp@.len() == i,
                !any ==> forall|p: int, q: int| 0 <= p < i && 0 <= q < n ==> !(#[trigger] comp@[p]@[q]),
                forall|p: int| 0 <= p < i ==> (#[trigger] comp@[p])@.len() == n,
                forall|p: int, q: int| 0 <= p < i && 0 <= q < n ==> (#[trigger] comp@[p]@[q] <==>
                    (p < q && constraint_includes(self.passive, pair_line(sv[p], sv[q])))),
            decreases n - i,
        {
            let mut row: Vec<bool> = Vec::new();
            let mut j: usize = 0;
            while j < n
                invariant
                    i < n,
                    j <= n,
                    n == sets@.len(),
                    sv == vecs_view(sets@),
                    distinct_sorted(sv),
                    self.passive.wf(),
                    self.passive.degree == Degree::Finite(2),
                    row@.len() == j,
                    comp@.len() == i,
                    !any ==> forall|p: int, q: int| 0 <= p < i && 0 <= q < n ==> !(#[trigger] comp@[p]@[q]),
                    !any ==> forall|q: int| 0 <= q < j ==> !(#[trigger] row@[q]),
                    forall|q: int| 0 <= q < j ==> (#[trigger] row@[q] <==>
                        (i < q && constraint_includes(self.passive, pair_line(sv[i as int], sv[q])))),
                decreases n - j,
            {
                let e = if i < j {
                    assert(sets@[i as int]@ == sv[i as int] && sets@[j as int]@ == sv[j as int]);
                    allows_pair(&self.passive, &sets[i], &sets[j])
                } else {
                    false
                };
                if e {
                    any = true;
                }
                row.push(e);
                j += 1;
            }
            let ghost before = comp@;
            comp.push(row);
            proof {
                if !any {
                    assert forall|p: int, q: int| 0 <= p < i + 1 && 0 <= q < n implies !(#[trigger] comp@[p]@[q]) by {
                        if p < i {
                            assert(comp@[p] == before[p]);
                        }
                    }
                }
            }
            i += 1;
        }
        if !any {
            self.coloring_sets = Some(Vec::new());
            proof {
                let v = self.coloring_sets->Some_0;
                assert(vecs_view(v@).to_set() =~= picked(sv, Seq::<usize>::empty()));
                assert(compatible_clique(self.passive, sv, Seq::<usize>::empty()));
                assert(minimal_list(sv, self.active@));
                assert forall|idx2: Seq<usize>| #[trigger] compatible_clique(self.passive, sv, idx2) && idx2.len() >= 2
                    implies idx2.len() <= 0 by {
                    let x = idx2[0] as int;
                    let y = idx2[1] as int;
                    assert(x != y && compatible(self.passive, sv, x, y));
                    if x < y {
                        assert(comp@[x]@[y]);
                    } else {
                        assert(comp@[y]@[x]);
                    }
                }
            }
            return;
        }
        if n >= 0x4000_0000 {
            assert(minimal_list(sv, self.active@));
            return;
        }
        proof {
            assert forall|p: int| 0 <= p < n implies (#[trigger] bool_rows(comp@)[p]).len() == n by {
                assert(bool_rows(comp@)[p] == comp@[p]@);
            }
        }
        let adj = upper_adjacency(&comp);
        let ghost cv = bool_rows(comp@);
        proof {
            assert forall|a: int, i: int| 0 <= a < adj@.len() && 0 <= i < adj@[a]@.len() implies (#[trigger] adj@[a]@[i]) < adj@.len() by {
                assert(adj_view(adj@)[a] == adj@[a]@);
            }
        }
        let g = Graph::from_adj(adj);
        let clique = g.max_clique();
        let mut chosen: Vec<Vec<Label>> = Vec::new();
        let mut k: usize = 0;
        while k < clique.len()
            invariant
                k <= clique@.len(),
                is_clique_of(g.matrix(), clique@),
                g.wf(),
                g.size() == n,
                n == sets@.len(),
                sv == vecs_view(sets@),
                vecs_view(chosen@) == Seq::new(k as nat, |q: int| sv[clique@[q] as int]),
            decreases clique@.len() - k,
        {
            let x = clique[k];
            assert(clique@[k as int] < g.matrix().len());
            let ghost before = vecs_view(chosen@);
            assert(sets@[x as int]@ == sv[x as int]);
            chosen.push(copy_labels(&sets[x]));
            assert(vecs_view(chosen@) =~= before.push(sv[x as int]));
            assert(vecs_view(chosen@) =~= Seq::new((k + 1) as nat, |q: int| sv[clique@[q] as int]));
            k += 1;
        }
        proof {
            let cl = clique@;
            let chv = vecs_view(chosen@);
            assert forall|a: int, b: int| 0 <= a < b < chv.len() implies #[trigger] chv[a] != #[trigger] chv[b] by {
                assert(cl[a] != cl[b]);
                crate::choices::lemma_distinct_sets(sv, cl[a] as int, cl[b] as int);
            }
            assert forall|a: int| 0 <= a < chv.len() implies crate::group::strictly_sorted(#[trigger] chv[a]) by {
                assert(chv[a] == sv[cl[a] as int]);
            }
        }
        let sorted = sort_label_vecs(&chosen);
        proof {
            let cl = clique@;
            let lists = g.lists();
            assert(lists == adj_view(adj@));
            assert forall|a: int, b: int| 0 <= a < cl.len() && 0 <= b < cl.len() && a != b implies #[trigger] cl[a] != #[trigger] cl[b]
                && compatible(self.passive, sv, cl[a] as int, cl[b] as int) by {
                assert(cl[a] != cl[b] && g.matrix()[cl[a] as int][cl[b] as int]);
                let x = cl[a] as int;
                let y = cl[b] as int;
                assert(crate::clique::adjacent_in(lists, x, y));
                assert(lists[x].contains(y as usize) || lists[y].contains(x as usize));
                assert(joined(cv, x, y) || joined(cv, y, x));
                assert(cv[x] == comp@[x]@ && cv[y] == comp@[y]@);
            }
            assert(compatible_clique(self.passive, sv, cl));
            assert forall|idx2: Seq<usize>| #[trigger] compatible_clique(self.passive, sv, idx2) && idx2.len() >= 2
                implies idx2.len() <= cl.len() by {
                assert forall|a: int| 0 <= a < idx2.len() implies (#[trigger] idx2[a]) < g.matrix().len() by {}
                assert forall|a: int, b: int| #![trigger idx2[a], idx2[b]] 0 <= a < idx2.len() && 0 <= b < idx2.len() && a != b
                    implies idx2[a] != idx2[b] && g.matrix()[idx2[a] as int][idx2[b] as int] by {
                    let x = idx2[a] as int;
                    let y = idx2[b] as int;
                    assert(x != y && compatible(self.passive, sv, x, y));
                    assert(cv[x] == comp@[x]@ && cv[y] == comp@[y]@);
                    assert(joined(cv, x, y));
                    assert(lists[x].contains(y as usize));
                    assert(crate::clique::adjacent_in(lists, x, y));
                }
                assert(is_clique_of(g.matrix(), idx2));
            }
            let chv = vecs_view(chosen@);
            assert forall|s: Seq<Label>| chv.to_set().contains(s) <==> picked(sv, cl).contains(s) by {
                if chv.to_set().contains(s) {
                    let q = choose|q: int| 0 <= q < chv.len() && chv[q] == s;
                    assert(s == sv[cl[q] as int]);
                }
                if picked(sv, cl).contains(s) {
                    let q = choose|q: int| 0 <= q < cl.len() && s == sv[#[trigger] cl[q] as int];
                    assert(chv[q] == s);
                }
            }
            assert(chv.to_set() =~= picked(sv, cl));
            assert(minimal_list(sv, self.active@));
        }
        self.coloring_sets = Some(sorted);
    }
}

} // verus!
