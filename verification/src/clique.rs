use vstd::prelude::*;

verus! {

/// `a` and `b` are two different vertices joined by an edge of the lists.
pub open spec fn adjacent_in(adj: Seq<Seq<usize>>, a: int, b: int) -> bool {
    a != b && (adj[a].contains(b as usize) || adj[b].contains(a as usize))
}

/// `v` is a clique of the matrix: distinct vertices, pairwise adjacent.
pub open spec fn is_clique_of(m: Seq<Seq<bool>>, v: Seq<usize>) -> bool {
    &&& forall|i: int| 0 <= i < v.len() ==> (#[trigger] v[i]) < m.len()
    &&& forall|i: int, j: int| #![trigger v[i], v[j]] 0 <= i < v.len() && 0 <= j < v.len() && i != j ==> v[i] != v[j] && m[v[i] as int][v[j] as int]
}

/// The adjacency lists are symmetric and without repetitions, and name
/// vertices of the graph only.
pub open spec fn adj_simple(adj: Seq<Seq<usize>>) -> bool {
    &&& forall|a: int, i: int| 0 <= a < adj.len() && 0 <= i < adj[a].len() ==> (#[trigger] adj[a][i]) < adj.len()
    &&& forall|a: int| 0 <= a < adj.len() ==> (#[trigger] adj[a]).no_duplicates()
    &&& forall|a: int, b: int| 0 <= a < adj.len() && 0 <= b < adj.len() ==> (#[trigger] adj[a].contains(b as usize) <==> #[trigger] adj[b].contains(a as usize))
}

/// `v` lists each vertex below `n` exactly once.
pub open spec fn is_permutation(v: Seq<usize>, n: nat) -> bool {
    &&& v.len() == n
    &&& v.no_duplicates()
    &&& forall|i: int| 0 <= i < v.len() ==> (#[trigger] v[i]) < n
}

/// A graph, given by adjacency lists, with its adjacency matrix.
pub struct Graph {
    n: usize,
    adj: Vec<Vec<usize>>,
    m: Vec<Vec<bool>>,
}

/// The views of adjacency lists.
pub open spec fn adj_view(adj: Seq<Vec<usize>>) -> Seq<Seq<usize>> {
    adj.map_values(|v: Vec<usize>| v@)
}

impl Graph {
    /// The number of vertices.
    pub closed spec fn size(&self) -> nat {
        self.n as nat
    }

    /// The adjacency lists.
    pub closed spec fn lists(&self) -> Seq<Seq<usize>> {
        adj_view(self.adj@)
    }

    /// The adjacency matrix.
    pub closed spec fn matrix(&self) -> Seq<Seq<bool>> {
        self.m@.map_values(|r: Vec<bool>| r@)
    }

    /// The matrix says which vertices the lists join, and the graph is small
    /// enough for its counts to be added.
    pub open spec fn wf(&self) -> bool {
        &&& self.lists().len() == self.size()
        &&& self.matrix().len() == self.size()
        &&& self.size() < 0x4000_0000
        &&& forall|a: int| 0 <= a < self.size() ==> (#[trigger] self.matrix()[a]).len() == self.size()
        &&& forall|a: int, b: int| 0 <= a < self.size() && 0 <= b < self.size() ==>
            #[trigger] self.matrix()[a][b] == adjacent_in(self.lists(), a, b)
    }

    /// The graph of the adjacency lists `adj`: vertex `a` is joined to each
    /// vertex of `adj[a]` but itself.
    pub fn from_adj(adj: Vec<Vec<usize>>) -> (r: Graph)
        requires
            adj@.len() < 0x4000_0000,
            forall|a: int, i: int| 0 <= a < adj@.len() && 0 <= i < adj@[a]@.len() ==> (#[trigger] adj@[a]@[i]) < adj@.len(),
        ensures
            r.wf(),
            r.lists() == adj_view(adj@),
    {
        let n = adj.len();
        let ghost av = adj_view(adj@);
        let mut m: Vec<Vec<bool>> = Vec::new();
        let mut a: usize = 0;
        while a < n
            invariant
                a <= n,
                n == adj@.len(),
                av == adj_view(adj@),
                m@.len() == a,
                forall|q: int| 0 <= q < a ==> (#[trigger] m@[q])@.len() == n,
                forall|q: int, b: int| 0 <= q < a && 0 <= b < n ==> #[trigger] m@[q]@[b] == adjacent_in(av, q, b),
            decreases n - a,
        {
            let mut row: Vec<bool> = Vec::new();
            let mut b: usize = 0;
            while b < n
                invariant
                    a < n,
                    b <= n,
                    n == adj@.len(),
                    av == adj_view(adj@),
                    row@.len() == b,
                    forall|q: int| 0 <= q < b ==> #[trigger] row@[q] == adjacent_in(av, a as int, q),
                decreases n - b,
            {
                let x = a != b && (contains_vertex(&adj[a], b) || contains_vertex(&adj[b], a));
                proof {
                    assert(av[a as int] == adj@[a as int]@);
                    assert(av[b as int] == adj@[b as int]@);
                }
                row.push(x);
                b += 1;
            }
            m.push(row);
            a += 1;
        }
        let g = Graph { n, adj, m };
        proof {
            assert forall|q: int| 0 <= q < n implies (#[trigger] g.matrix()[q]).len() == n by {
                assert(g.matrix()[q] == m@[q]@);
            }
            assert forall|q: int, b: int| 0 <= q < n && 0 <= b < n implies #[trigger] g.matrix()[q][b] == adjacent_in(g.lists(), q, b) by {
                assert(g.matrix()[q] == m@[q]@);
            }
        }
        g
    }
}

/// Whether `v` holds `x`.
fn contains_vertex(v: &Vec<usize>, x: usize) -> (r: bool)
    ensures
        r == v@.contains(x),
{
    let mut i: usize = 0;
    while i < v.len()
        invariant
            i <= v@.len(),
            forall|q: int| 0 <= q < i ==> v@[q] != x,
        decreases v@.len() - i,
    {
        if v[i] == x {
            return true;
        }
        i += 1;
    }
    false
}

/// The neighbours of `x` not yet placed.
pub open spec fn open_degree(adj: Seq<Seq<usize>>, x: int, placed: Set<usize>) -> nat {
    adj[x].to_set().difference(placed).len()
}

impl Graph {
    /// An order of the vertices: colour classes one after the other, each
    /// built greedily by taking the active vertex with the most neighbours
    /// not yet placed (the last one on ties) and making its neighbours
    /// inactive.
    pub fn ordering(&self) -> (r: Vec<usize>)
        requires
            self.wf(),
            adj_simple(self.lists()),
        ensures
            is_permutation(r@, self.size()),
    {
        let n = self.n;
        let ghost adj = self.lists();
        let mut remaining: Vec<bool> = Vec::new();
        let mut degrees: Vec<usize> = Vec::new();
        let mut x: usize = 0;
        while x < n
            invariant
                x <= n,
                n == self.size(),
                adj == self.lists(),
                self.wf(),
                adj_simple(adj),
                remaining@.len() == x,
                degrees@.len() == x,
                forall|q: int| 0 <= q < x ==> #[trigger] remaining@[q],
                forall|q: int| 0 <= q < x ==> #[trigger] degrees@[q] == open_degree(adj, q, Set::<usize>::empty()),
            decreases n - x,
        {
            remaining.push(true);
            proof {
                assert(adj[x as int] == self.adj@[x as int]@);
                adj[x as int].unique_seq_to_set();
                assert(adj[x as int].to_set().difference(Set::<usize>::empty()) =~= adj[x as int].to_set());
            }
            degrees.push(self.adj[x].len());
            x += 1;
        }
        let mut order: Vec<usize> = Vec::new();
        assert(order@.to_set() =~= Set::<usize>::empty());
        loop
            invariant
                n == self.size(),
                adj == self.lists(),
                self.wf(),
                adj_simple(adj),
                remaining@.len() == n,
                degrees@.len() == n,
                order@.no_duplicates(),
                forall|q: int| 0 <= q < order@.len() ==> (#[trigger] order@[q]) < n,
                forall|q: int| 0 <= q < n ==> (#[trigger] remaining@[q] <==> !order@.contains(q as usize)),
                forall|q: int| 0 <= q < n ==> #[trigger] degrees@[q] == open_degree(adj, q, order@.to_set()),
                order@.len() <= n,
            ensures
                order@.len() == n,
                order@.no_duplicates(),
                forall|q: int| 0 <= q < order@.len() ==> (#[trigger] order@[q]) < n,
            decreases n - order@.len(),
        {
            let mut any = false;
            let mut y: usize = 0;
            while y < n
                invariant
                    y <= n,
                    remaining@.len() == n,
                    any <==> exists|q: int| 0 <= q < y && #[trigger] remaining@[q],
                decreases n - y,
            {
                if remaining[y] {
                    any = true;
                }
                y += 1;
            }
            if !any {
                proof {
                    lemma_all_placed(order@, n as nat, remaining@);
                }
                break;
            }
            let ghost start = order@.len();
            let mut active: Vec<bool> = Vec::new();
            let mut z: usize = 0;
            while z < n
                invariant
                    z <= n,
                    remaining@.len() == n,
                    active@.len() == z,
                    forall|q: int| 0 <= q < z ==> #[trigger] active@[q] == remaining@[q],
                decreases n - z,
            {
                active.push(remaining[z]);
                z += 1;
            }
            proof {
                let w = choose|q: int| 0 <= q < n && #[trigger] remaining@[q];
                assert(active@[w]);
            }
            let mut going = true;
            while going
                invariant
                    n == self.size(),
                    adj == self.lists(),
                    self.wf(),
                    adj_simple(adj),
                    remaining@.len() == n,
                    active@.len() == n,
                    degrees@.len() == n,
                    order@.no_duplicates(),
                    forall|q: int| 0 <= q < order@.len() ==> (#[trigger] order@[q]) < n,
                    forall|q: int| 0 <= q < n ==> (#[trigger] remaining@[q] <==> !order@.contains(q as usize)),
                    forall|q: int| 0 <= q < n && #[trigger] active@[q] ==> remaining@[q],
                    forall|q: int| 0 <= q < n ==> #[trigger] degrees@[q] == open_degree(adj, q, order@.to_set()),
                    order@.len() <= n,
                    start <= order@.len(),
                    order@.len() == start ==> going && exists|q: int| 0 <= q < n && #[trigger] active@[q],
                decreases n - order@.len() + (if going { 1int } else { 0int }),
            {
                let mut best: usize = n;
                let mut w: usize = 0;
                while w < n
                    invariant
                        w <= n,
                        active@.len() == n,
                        degrees@.len() == n,
                        best == n || (best < w && active@[best as int]),
                        best == n ==> forall|q: int| 0 <= q < w ==> !#[trigger] active@[q],
                        best < n ==> forall|q: int| 0 <= q < w && #[trigger] active@[q] ==> degrees@[q] <= degrees@[best as int],
                    decreases n - w,
                {
                    if active[w] && (best == n || degrees[w] >= degrees[best]) {
                        best = w;
                    }
                    w += 1;
                }
                if best == n {
                    going = false;
                } else {
                    let mx = best;
                    let ghost before = order@;
                    proof {
                        assert(!order@.contains(mx));
                    }
                    order.push(mx);
                    proof {
                        assert forall|i: int, j: int| 0 <= i < order@.len() && 0 <= j < order@.len() && i != j implies order@[i] != order@[j] by {
                            if i < before.len() && j < before.len() {
                                assert(before[i] != before[j]);
                            } else if i == before.len() {
                                assert(!before.contains(mx));
                                assert(before[j] == order@[j]);
                            } else {
                                assert(!before.contains(mx));
                                assert(before[i] == order@[i]);
                            }
                        }
                        before.lemma_push_to_set_commute(mx);
                        lemma_distinct_below(order@, n as nat);
                    }
                    let nb = &self.adj[mx];
                    proof {
                        assert(nb@ == adj[mx as int]);
                        assert(nb@.subrange(0, nb@.len() as int) =~= nb@);
                        assert forall|q: int| 0 <= q < n implies #[trigger] degrees@[q] == open_degree(adj, q, order@.to_set())
                            + (if nb@.subrange(0, nb@.len() as int).contains(q as usize) { 1nat } else { 0nat }) by {
                            lemma_open_degree_step(adj, q, before.to_set(), mx);
                        }
                    }
                    let mut k: usize = 0;
                    while k < nb.len()
                        invariant
                            k <= nb@.len(),
                            nb@ == adj[mx as int],
                            mx < n,
                            n == self.size(),
                            adj == self.lists(),
                            adj_simple(adj),
                            adj.len() == n,
                            active@.len() == n,
                            degrees@.len() == n,
                            order@.to_set() == before.to_set().insert(mx),
                            !before.contains(mx),
                            forall|q: int| 0 <= q < n ==> #[trigger] degrees@[q] == open_degree(adj, q, order@.to_set())
                                + (if nb@.subrange(k as int, nb@.len() as int).contains(q as usize) { 1nat } else { 0nat }),
                            forall|q: int| 0 <= q < n && #[trigger] active@[q] ==> !before.contains(q as usize),
                        decreases nb@.len() - k,
                    {
                        let y = nb[k];
                        proof {
                            assert(nb@.subrange(k as int, nb@.len() as int)[0] == y);
                            assert(degrees@[y as int] >= 1);
                        }
                        active.set(y, false);
                        degrees.set(y, degrees[y] - 1);
                        proof {
                            let rest = nb@.subrange(k + 1, nb@.len() as int);
                            assert(!rest.contains(y)) by {
                                if rest.contains(y) {
                                    let t = choose|t: int| 0 <= t < rest.len() && rest[t] == y;
                                    assert(nb@[k + 1 + t] == nb@[k as int]);
                                }
                            }
                            assert forall|q: int| 0 <= q < n implies #[trigger] degrees@[q] == open_degree(adj, q, order@.to_set())
                                + (if rest.contains(q as usize) { 1nat } else { 0nat }) by {
                                let full = nb@.subrange(k as int, nb@.len() as int);
                                if q != y {
                                    assert(rest.contains(q as usize) <==> full.contains(q as usize)) by {
                                        if full.contains(q as usize) {
                                            let t = choose|t: int| 0 <= t < full.len() && full[t] == q as usize;
                                            assert(t != 0);
                                            assert(rest[t - 1] == q as usize);
                                        }
                                        if rest.contains(q as usize) {
                                            let t = choose|t: int| 0 <= t < rest.len() && rest[t] == q as usize;
                                            assert(full[t + 1] == q as usize);
                                        }
                                    }
                                }
                            }
                        }
                        k += 1;
                    }
                    proof {
                        assert(nb@.subrange(nb@.len() as int, nb@.len() as int) =~= Seq::<usize>::empty());
                    }
                    active.set(mx, false);
                    remaining.set(mx, false);
                    proof {
                        assert forall|q: int| 0 <= q < n implies (#[trigger] remaining@[q] <==> !order@.contains(q as usize)) by {
                            if q == mx {
                                assert(order@[before.len() as int] == mx);
                            } else {
                                if order@.contains(q as usize) {
                                    let t = choose|t: int| 0 <= t < order@.len() && order@[t] == q as usize;
                                    assert(t < before.len());
                                    assert(before[t] == q as usize);
                                }
                                if before.contains(q as usize) {
                                    let t = choose|t: int| 0 <= t < before.len() && before[t] == q as usize;
                                    assert(order@[t] == q as usize);
                                }
                            }
                        }
                        assert forall|q: int| 0 <= q < n && #[trigger] active@[q] implies remaining@[q] by {
                            if q != mx {
                                assert(!before.contains(q as usize));
                                if order@.contains(q as usize) {
                                    let t = choose|t: int| 0 <= t < order@.len() && order@[t] == q as usize;
                                    if t < before.len() {
                                        assert(before[t] == q as usize);
                                    }
                                }
                            }
                        }
                    }
                }
            }
        }
        order
    }
}

impl Graph {
    /// A largest clique, found by branch and bound over the vertices taken in
    /// the order of `ordering`, from the last one back: `bound[x]` holds the
    /// size of the largest clique among the vertices from `x` on in that order.
    pub fn max_clique(&self) -> (r: Vec<usize>)
        requires
            self.wf(),
            adj_simple(self.lists()),
        ensures
            is_clique_of(self.matrix(), r@),
            self.size() > 0 ==> r@.len() > 0,
            forall|c: Seq<usize>| #[trigger] is_clique_of(self.matrix(), c) ==> c.len() <= r@.len(),
    {
        let n = self.n;
        let mut bound: Vec<usize> = Vec::new();
        let mut x: usize = 0;
        while x < n
            invariant
                x <= n,
                bound@.len() == x,
                forall|q: int| 0 <= q < x ==> #[trigger] bound@[q] == 0,
            decreases n - x,
        {
            bound.push(0);
            x += 1;
        }
        let v = self.ordering();
        let mut max: usize = 0;
        let mut candidates: Vec<usize> = Vec::new();
        let mut best: Vec<usize> = Vec::new();
        let mut i: usize = n;
        proof {
            assert forall|c: Seq<usize>| #[trigger] is_clique_of(self.matrix(), c) && c.to_set().subset_of(v@.subrange(n as int, n as int).to_set()) implies c.len() <= 0 by {
                if c.len() > 0 {
                    assert(c.to_set().contains(c[0]));
                }
            }
        }
        while i > 0
            invariant
                i <= n,
                n == self.size(),
                self.wf(),
                is_permutation(v@, n as nat),
                bound@.len() == n,
                forall|q: int| 0 <= q < n ==> #[trigger] bound@[q] <= n,
                candidates@.len() == 0,
                is_clique_of(self.matrix(), best@),
                best@.len() == max,
                max <= n,
                i < n ==> max > 0,
                cliques_bounded(self.matrix(), v@.subrange(i as int, n as int).to_set(), max as nat),
                forall|j: int| i <= j < n ==> cliques_bounded(self.matrix(), after_set(v@, v@[j]), #[trigger] bound@[v@[j] as int] as nat),
            decreases i,
        {
            i -= 1;
            let vi = v[i];
            let mut u: Vec<usize> = Vec::new();
            let mut j: usize = i + 1;
            let ghost mut idx: Seq<int> = Seq::empty();
            while j < n
                invariant
                    i < j <= n,
                    n == self.size(),
                    self.wf(),
                    is_permutation(v@, n as nat),
                    vi == v@[i as int],
                    u@.len() <= j - i - 1,
                    forall|q: int| 0 <= q < u@.len() ==> (#[trigger] u@[q]) < n && self.matrix()[vi as int][u@[q] as int],
                    idx.len() == u@.len(),
                    forall|q: int| 0 <= q < u@.len() ==> i < #[trigger] idx[q] < j && v@[idx[q]] == u@[q],
                    forall|q: int, r: int| 0 <= q < r < u@.len() ==> #[trigger] idx[q] < #[trigger] idx[r],
                    forall|t: int| i < t < j && self.matrix()[vi as int][v@[t] as int] ==> u@.contains(#[trigger] v@[t]),
                decreases n - j,
            {
                let y = v[j];
                proof {
                    assert(self.matrix()[vi as int] == self.m@[vi as int]@);
                }
                let ghost before = u@;
                if self.m[vi][y] {
                    u.push(y);
                    proof {
                        idx = idx.push(j as int);
                    }
                }
                proof {
                    assert forall|t: int| i < t < j + 1 && self.matrix()[vi as int][v@[t] as int] implies u@.contains(#[trigger] v@[t]) by {
                        if t < j {
                            assert(before.contains(v@[t]));
                            let w = choose|w: int| 0 <= w < before.len() && before[w] == v@[t];
                            assert(u@[w] == v@[t]);
                        } else {
                            assert(u@[u@.len() - 1] == v@[t]);
                        }
                    }
                }
                j += 1;
            }
            let ghost old_max = max as nat;
            let ghost uv = u@;
            let mut found = false;
            candidates.push(vi);
            proof {
                assert(self.matrix()[vi as int] == self.m@[vi as int]@);
                assert forall|q: int| 0 <= q < u@.len() implies #[trigger] self.matrix()[vi as int][u@[q] as int] by {}
                assert(!self.matrix()[vi as int][vi as int]);
                assert(candidates@ =~= seq![vi]);
                assert forall|q: int, r: int| 0 <= q < r < u@.len() implies u@[q] != u@[r] by {
                    assert(idx[q] < idx[r]);
                }
                assert forall|q: int| 0 <= q < u@.len() implies u@.subrange(q, u@.len() as int).to_set().subset_of(after_set(v@, #[trigger] u@[q])) by {
                    assert forall|y: usize| u@.subrange(q, u@.len() as int).to_set().contains(y) implies after_set(v@, u@[q]).contains(y) by {
                        let w = choose|w: int| 0 <= w < u@.len() - q && u@.subrange(q, u@.len() as int)[w] == y;
                        assert(u@[q + w] == y);
                        if w > 0 {
                            assert(idx[q] < idx[q + w]);
                        }
                        assert(comes_after(v@, u@[q], y));
                    }
                }
                assert forall|q: int| 0 <= q < u@.len() implies cliques_bounded(self.matrix(), after_set(v@, #[trigger] u@[q]), bound@[u@[q] as int] as nat) by {
                    assert(u@[q] == v@[idx[q]]);
                }
                assert forall|c: Seq<usize>| #[trigger] extends(self.matrix(), candidates@, c, u@.subrange(0, u@.len() as int).to_set()) implies 1 + c.len() <= old_max + 1 by {
                    lemma_clique_tail(self.matrix(), candidates@, c);
                    assert(c.to_set().subset_of(v@.subrange(i + 1, n as int).to_set())) by {
                        assert forall|y: usize| c.to_set().contains(y) implies v@.subrange(i + 1, n as int).to_set().contains(y) by {
                            assert(u@.subrange(0, u@.len() as int).to_set().contains(y));
                            let w = choose|w: int| 0 <= w < u@.len() && u@.subrange(0, u@.len() as int)[w] == y;
                            assert(v@.subrange(i + 1, n as int)[idx[w] - i - 1] == y);
                        }
                    }
                }
            }
            self.clique_rec(&u, 0, 1, &bound, &mut max, &mut found, &mut candidates, &mut best, Ghost(v@), Ghost(old_max + 1));
            candidates.pop();
            proof {
                let m = self.matrix();
                assert(uv.subrange(0, uv.len() as int) =~= uv);
                assert forall|c: Seq<usize>| #[trigger] is_clique_of(m, c) && c.to_set().subset_of(v@.subrange(i as int, n as int).to_set()) implies c.len() <= max by {
                    if c.contains(vi) {
                        let p = choose|p: int| 0 <= p < c.len() && c[p] == vi;
                        let rest = c.remove(p);
                        let d = seq![vi] + rest;
                        assert(d.to_set() =~= c.to_set()) by {
                            assert forall|y: usize| d.to_set().contains(y) <==> c.to_set().contains(y) by {
                                if d.to_set().contains(y) {
                                    let w = choose|w: int| 0 <= w < d.len() && d[w] == y;
                                    if w > 0 {
                                        let ww = if w - 1 < p { w - 1 } else { w };
                                        assert(c[ww] == y);
                                    }
                                }
                                if c.to_set().contains(y) {
                                    let w = choose|w: int| 0 <= w < c.len() && c[w] == y;
                                    if w != p {
                                        let ww = if w < p { w } else { w - 1 };
                                        assert(d[ww + 1] == y);
                                    } else {
                                        assert(d[0] == y);
                                    }
                                }
                            }
                        }
                        lemma_seq_distinct_by_count(c, d);
                        lemma_clique_same_vertices(m, c, d);
                        assert(rest.to_set().subset_of(uv.to_set())) by {
                            assert forall|y: usize| rest.to_set().contains(y) implies uv.to_set().contains(y) by {
                                let w = choose|w: int| 0 <= w < rest.len() && rest[w] == y;
                                let ww = if w < p { w } else { w + 1 };
                                assert(c[ww] == y);
                                assert(ww != p);
                                assert(c.to_set().contains(y));
                                let t = choose|t: int| 0 <= t < n - i && v@.subrange(i as int, n as int)[t] == y;
                                assert(v@[i + t] == y);
                                assert(y != vi);
                                assert(t != 0);
                                assert(d[0] == vi && d[w + 1] == y);
                                assert(m[vi as int][y as int]);
                                assert(uv.contains(v@[i + t]));
                            }
                        }
                        assert(d == seq![vi] + rest);
                        assert(extends(m, seq![vi], rest, uv.subrange(0, uv.len() as int).to_set()));
                    } else {
                        assert(c.to_set().subset_of(v@.subrange(i + 1, n as int).to_set())) by {
                            assert forall|y: usize| c.to_set().contains(y) implies v@.subrange(i + 1, n as int).to_set().contains(y) by {
                                let t = choose|t: int| 0 <= t < n - i && v@.subrange(i as int, n as int)[t] == y;
                                assert(v@[i + t] == y);
                                if t == 0 {
                                    let w = choose|w: int| 0 <= w < c.len() && c[w] == y;
                                }
                                assert(v@.subrange(i + 1, n as int)[t - 1] == y);
                            }
                        }
                    }
                }
                lemma_after_suffix(v@, i as int);
            }
            bound.set(vi, max);
            proof {
                assert forall|j: int| i <= j < n implies cliques_bounded(self.matrix(), after_set(v@, v@[j]), #[trigger] bound@[v@[j] as int] as nat) by {
                    if j > i {
                        assert(v@[j] != v@[i as int]);
                    }
                }
            }
        }
        proof {
            lemma_order_onto(v@, n as nat);
            assert(v@.subrange(0, n as int) =~= v@);
            assert forall|c: Seq<usize>| #[trigger] is_clique_of(self.matrix(), c) implies c.len() <= best@.len() by {
                assert(c.to_set().subset_of(v@.to_set())) by {
                    assert forall|y: usize| c.to_set().contains(y) implies v@.to_set().contains(y) by {
                        let w = choose|w: int| 0 <= w < c.len() && c[w] == y;
                        assert(c[w] < n);
                        assert(v@.contains(y));
                    }
                }
            }
        }
        best
    }

    /// Grows the clique `candidates` by the vertices of `u` from `start` on,
    /// each of which is joined to all of it; `best` keeps the largest clique
    /// seen, of size `max`, and `found` is set once a larger one was seen.
    /// The vertices of `u` come in the order `order`, and the bound of each
    /// holds for the cliques after it; no clique grown from `candidates` has
    /// more than `cap` vertices.
    #[verifier::spinoff_prover]
    #[verifier::rlimit(80)]
    fn clique_rec(
        &self,
        u: &Vec<usize>,
        start: usize,
        size: usize,
        bound: &Vec<usize>,
        max: &mut usize,
        found: &mut bool,
        candidates: &mut Vec<usize>,
        best: &mut Vec<usize>,
        Ghost(order): Ghost<Seq<usize>>,
        Ghost(cap): Ghost<nat>,
    )
        requires
            self.wf(),
            start <= u@.len(),
            size == old(candidates)@.len(),
            size <= self.size(),
            is_clique_of(self.matrix(), old(candidates)@),
            forall|q: int| start <= q < u@.len() ==> (#[trigger] u@[q]) < self.size(),
            forall|q: int, k: int| start <= q < u@.len() && 0 <= k < old(candidates)@.len() ==>
                #[trigger] self.matrix()[old(candidates)@[k] as int][u@[q] as int],
            u@.len() - start + size <= self.size(),
            bound@.len() == self.size(),
            forall|q: int| 0 <= q < self.size() ==> #[trigger] bound@[q] <= self.size(),
            is_clique_of(self.matrix(), old(best)@),
            old(best)@.len() == *old(max),
            *old(max) <= self.size(),
            u@.no_duplicates(),
            forall|q: int| start <= q < u@.len() ==> u@.subrange(q, u@.len() as int).to_set().subset_of(after_set(order, #[trigger] u@[q])),
            forall|q: int| start <= q < u@.len() ==> cliques_bounded(self.matrix(), after_set(order, #[trigger] u@[q]), bound@[u@[q] as int] as nat),
            forall|c: Seq<usize>| #[trigger] extends(self.matrix(), old(candidates)@, c, u@.subrange(start as int, u@.len() as int).to_set())
                ==> size + c.len() <= cap,
            *old(max) <= cap,
            cap <= *old(max) + 1,
            *old(found) ==> *old(max) == cap,
        ensures
            final(candidates)@ == old(candidates)@,
            is_clique_of(self.matrix(), final(best)@),
            final(best)@.len() == *final(max),
            *final(max) <= self.size(),
            *final(max) >= *old(max),
            *final(max) >= size,
            *final(max) <= cap,
            *final(found) ==> *final(max) == cap,
            forall|c: Seq<usize>| #[trigger] extends(self.matrix(), old(candidates)@, c, u@.subrange(start as int, u@.len() as int).to_set())
                ==> size + c.len() <= *final(max),
        decreases u@.len() - start,
    {
        let ghost n = self.size();
        let ghost m = self.matrix();
        let ghost us = u@.subrange(start as int, u@.len() as int).to_set();
        let ghost cand0 = candidates@;
        if start == u.len() && size > *max {
            *max = size;
            *found = true;
            *best = copy_vertices(candidates);
            proof {
                assert(extends(m, cand0, Seq::<usize>::empty(), us)) by {
                    assert(cand0 + Seq::<usize>::empty() =~= cand0);
                    assert(Seq::<usize>::empty().to_set() =~= Set::<usize>::empty());
                }
            }
        }
        let mut s = start;
        proof {
            assert forall|c: Seq<usize>| #[trigger] extends(m, cand0, c, us) && !c.to_set().disjoint(u@.subrange(start as int, s as int).to_set())
                implies size + c.len() <= *max by {
                let y = choose|y: usize| c.to_set().contains(y) && u@.subrange(start as int, s as int).to_set().contains(y);
                assert(u@.subrange(start as int, s as int).to_set().contains(y));
                let w = choose|w: int| 0 <= w < 0 && u@.subrange(start as int, s as int)[w] == y;
            }
        }
        while s < u.len()
            invariant
                start <= s <= u@.len(),
                self.wf(),
                n == self.size(),
                m == self.matrix(),
                us == u@.subrange(start as int, u@.len() as int).to_set(),
                size == candidates@.len(),
                size <= n,
                candidates@ == old(candidates)@,
                cand0 == candidates@,
                is_clique_of(self.matrix(), candidates@),
                forall|q: int| start <= q < u@.len() ==> (#[trigger] u@[q]) < n,
                forall|q: int, k: int| start <= q < u@.len() && 0 <= k < candidates@.len() ==>
                    #[trigger] self.matrix()[candidates@[k] as int][u@[q] as int],
                u@.len() - start + size <= n,
                bound@.len() == n,
                forall|q: int| 0 <= q < n ==> #[trigger] bound@[q] <= n,
                is_clique_of(self.matrix(), best@),
                best@.len() == *max,
                *max <= n,
                *max >= *old(max),
                s > start ==> *max >= size,
                start == u@.len() ==> *max >= size,
                u@.no_duplicates(),
                forall|q: int| start <= q < u@.len() ==> u@.subrange(q, u@.len() as int).to_set().subset_of(after_set(order, #[trigger] u@[q])),
                forall|q: int| start <= q < u@.len() ==> cliques_bounded(self.matrix(), after_set(order, #[trigger] u@[q]), bound@[u@[q] as int] as nat),
                forall|c: Seq<usize>| #[trigger] extends(m, cand0, c, us) ==> size + c.len() <= cap,
                *max <= cap,
                cap <= *max + 1,
                *found ==> *max == cap,
                forall|c: Seq<usize>| #[trigger] extends(m, cand0, c, us) && !c.to_set().disjoint(u@.subrange(start as int, s as int).to_set())
                    ==> size + c.len() <= *max,
            ensures
                candidates@ == old(candidates)@,
                is_clique_of(self.matrix(), best@),
                best@.len() == *max,
                *max <= n,
                *max >= *old(max),
                *max >= size,
                *max <= cap,
                *found ==> *max == cap,
                s == u@.len(),
                forall|c: Seq<usize>| #[trigger] extends(m, cand0, c, us) && !c.to_set().disjoint(u@.subrange(start as int, s as int).to_set())
                    ==> size + c.len() <= *max,
            decreases u@.len() - s,
        {
            if size + (u.len() - s) <= *max {
                proof {
                    assert forall|c: Seq<usize>| #[trigger] extends(m, cand0, c, us) implies size + c.len() <= *max by {
                        if c.to_set().disjoint(u@.subrange(start as int, s as int).to_set()) {
                            lemma_clique_tail(m, cand0, c);
                            lemma_split_rest(u@, start as int, s as int, c);
                            lemma_distinct_within(c, u@.subrange(s as int, u@.len() as int));
                        }
                    }
                }
                return;
            }
            let vi = u[s];
            if size + bound[vi] <= *max {
                proof {
                    assert forall|c: Seq<usize>| #[trigger] extends(m, cand0, c, us) implies size + c.len() <= *max by {
                        if c.to_set().disjoint(u@.subrange(start as int, s as int).to_set()) {
                            lemma_clique_tail(m, cand0, c);
                            lemma_split_rest(u@, start as int, s as int, c);
                            assert(c.to_set().subset_of(after_set(order, u@[s as int])));
                            assert(is_clique_of(m, c));
                        }
                    }
                }
                return;
            }
            let ghost s0 = s;
            s += 1;
            let mut newu: Vec<usize> = Vec::new();
            let mut t: usize = s;
            let ghost mut idx: Seq<int> = Seq::empty();
            while t < u.len()
                invariant
                    s <= t <= u@.len(),
                    start < s,
                    s0 + 1 == s,
                    self.wf(),
                    n == self.size(),
                    vi < n,
                    vi == u@[s0 as int],
                    forall|q: int| start <= q < u@.len() ==> (#[trigger] u@[q]) < n,
                    newu@.len() <= t - s,
                    forall|q: int| 0 <= q < newu@.len() ==> (#[trigger] newu@[q]) < n
                        && self.matrix()[vi as int][newu@[q] as int]
                        && exists|p: int| s <= p < u@.len() && u@[p] == newu@[q],
                    idx.len() == newu@.len(),
                    forall|q: int| 0 <= q < newu@.len() ==> s <= #[trigger] idx[q] < t && u@[idx[q]] == newu@[q],
                    forall|q: int, r: int| 0 <= q < r < newu@.len() ==> #[trigger] idx[q] < #[trigger] idx[r],
                    forall|p: int| s <= p < t && self.matrix()[vi as int][u@[p] as int] ==> newu@.contains(#[trigger] u@[p]),
                decreases u@.len() - t,
            {
                let y = u[t];
                proof {
                    assert(self.matrix()[vi as int] == self.m@[vi as int]@);
                }
                let ghost before = newu@;
                if self.m[vi][y] {
                    newu.push(y);
                    proof {
                        idx = idx.push(t as int);
                        assert forall|q: int| 0 <= q < newu@.len() implies (#[trigger] newu@[q]) < n
                            && self.matrix()[vi as int][newu@[q] as int]
                            && exists|p: int| s <= p < u@.len() && u@[p] == newu@[q] by {
                            if q < before.len() {
                                assert(newu@[q] == before[q]);
                            } else {
                                assert(u@[t as int] == newu@[q]);
                            }
                        }
                    }
                }
                proof {
                    assert forall|p: int| s <= p < t + 1 && self.matrix()[vi as int][u@[p] as int] implies newu@.contains(#[trigger] u@[p]) by {
                        if p < t {
                            assert(before.contains(u@[p]));
                            let w = choose|w: int| 0 <= w < before.len() && before[w] == u@[p];
                            assert(newu@[w] == u@[p]);
                        } else {
                            assert(newu@[newu@.len() - 1] == u@[p]);
                        }
                    }
                }
                t += 1;
            }
            let ghost prev = candidates@;
            let ghost nv = newu@;
            proof {
                lemma_join_clique(self.matrix(), prev, vi, n);
                assert(self.matrix()[vi as int][vi as int] == adjacent_in(self.lists(), vi as int, vi as int));
            }
            candidates.push(vi);
            proof {
                assert forall|q: int, k: int| 0 <= q < newu@.len() && 0 <= k < candidates@.len() implies
                    #[trigger] self.matrix()[candidates@[k] as int][newu@[q] as int] by {
                    let p = choose|p: int| s <= p < u@.len() && u@[p] == newu@[q];
                    if k < prev.len() {
                        assert(candidates@[k] == prev[k]);
                        assert(self.matrix()[prev[k] as int][u@[p] as int]);
                    }
                }
                assert forall|q: int, r: int| 0 <= q < r < newu@.len() implies newu@[q] != newu@[r] by {
                    assert(idx[q] < idx[r]);
                }
                assert forall|q: int| 0 <= q < newu@.len() implies newu@.subrange(q, newu@.len() as int).to_set().subset_of(after_set(order, #[trigger] newu@[q])) by {
                    assert(u@.subrange(idx[q], u@.len() as int).to_set().subset_of(after_set(order, u@[idx[q]])));
                    assert forall|y: usize| newu@.subrange(q, newu@.len() as int).to_set().contains(y) implies after_set(order, newu@[q]).contains(y) by {
                        let w = choose|w: int| 0 <= w < newu@.len() - q && newu@.subrange(q, newu@.len() as int)[w] == y;
                        assert(newu@[q + w] == y);
                        if w > 0 {
                            assert(idx[q] < idx[q + w]);
                        }
                        assert(u@.subrange(idx[q], u@.len() as int)[idx[q + w] - idx[q]] == y);
                    }
                }
                assert forall|q: int| 0 <= q < newu@.len() implies cliques_bounded(self.matrix(), after_set(order, #[trigger] newu@[q]), bound@[newu@[q] as int] as nat) by {
                    assert(newu@[q] == u@[idx[q]]);
                }
                assert forall|c: Seq<usize>| #[trigger] extends(m, candidates@, c, newu@.subrange(0, newu@.len() as int).to_set()) implies size + 1 + c.len() <= cap by {
                    let d = seq![vi] + c;
                    assert(candidates@ + c =~= prev + d);
                    assert(d.to_set().subset_of(us)) by {
                        assert forall|y: usize| d.to_set().contains(y) implies us.contains(y) by {
                            let w = choose|w: int| 0 <= w < d.len() && d[w] == y;
                            if w == 0 {
                                assert(u@.subrange(start as int, u@.len() as int)[s0 - start] == y);
                            } else {
                                assert(c[w - 1] == y);
                                assert(c.to_set().contains(y));
                                assert(newu@.subrange(0, newu@.len() as int).to_set().contains(y));
                                let q = choose|q: int| 0 <= q < newu@.len() && newu@.subrange(0, newu@.len() as int)[q] == y;
                                assert(u@.subrange(start as int, u@.len() as int)[idx[q] - start] == y);
                            }
                        }
                    }
                    assert(extends(m, prev, d, us));
                }
            }
            self.clique_rec(&newu, 0, size + 1, bound, max, found, candidates, best, Ghost(order), Ghost(cap));
            candidates.pop();
            proof {
                assert(candidates@ =~= prev);
            }
            if *found {
                return;
            }
            proof {
                assert(nv.subrange(0, nv.len() as int) =~= nv);
                assert forall|c: Seq<usize>| #[trigger] extends(m, cand0, c, us) && !c.to_set().disjoint(u@.subrange(start as int, s as int).to_set())
                    implies size + c.len() <= *max by {
                    if c.to_set().disjoint(u@.subrange(start as int, s0 as int).to_set()) {
                        lemma_clique_tail(m, cand0, c);
                        let y = choose|y: usize| c.to_set().contains(y) && u@.subrange(start as int, s as int).to_set().contains(y);
                        let w = choose|w: int| 0 <= w < s - start && u@.subrange(start as int, s as int)[w] == y;
                        if start + w < s0 {
                            assert(u@.subrange(start as int, s0 as int)[w] == y);
                            assert(u@.subrange(start as int, s0 as int).to_set().contains(y));
                        }
                        assert(y == vi);
                        let p = choose|p: int| 0 <= p < c.len() && c[p] == vi;
                        let rest = c.remove(p);
                        let d = seq![vi] + rest;
                        assert(d.to_set() =~= c.to_set()) by {
                            assert forall|z: usize| d.to_set().contains(z) <==> c.to_set().contains(z) by {
                                if d.to_set().contains(z) {
                                    let w2 = choose|w2: int| 0 <= w2 < d.len() && d[w2] == z;
                                    if w2 > 0 {
                                        let ww = if w2 - 1 < p { w2 - 1 } else { w2 };
                                        assert(c[ww] == z);
                                    }
                                }
                                if c.to_set().contains(z) {
                                    let w2 = choose|w2: int| 0 <= w2 < c.len() && c[w2] == z;
                                    if w2 != p {
                                        let ww = if w2 < p { w2 } else { w2 - 1 };
                                        assert(d[ww + 1] == z);
                                    } else {
                                        assert(d[0] == z);
                                    }
                                }
                            }
                        }
                        assert((prev + d).to_set() =~= (prev + c).to_set()) by {
                            assert forall|z: usize| (prev + d).to_set().contains(z) <==> (prev + c).to_set().contains(z) by {
                                if (prev + d).to_set().contains(z) {
                                    let w2 = choose|w2: int| 0 <= w2 < (prev + d).len() && (prev + d)[w2] == z;
                                    if w2 < prev.len() {
                                        assert((prev + c)[w2] == z);
                                    } else {
                                        assert(d[w2 - prev.len()] == z);
                                        assert(d.to_set().contains(z));
                                        let w3 = choose|w3: int| 0 <= w3 < c.len() && c[w3] == z;
                                        assert((prev + c)[prev.len() + w3] == z);
                                    }
                                }
                                if (prev + c).to_set().contains(z) {
                                    let w2 = choose|w2: int| 0 <= w2 < (prev + c).len() && (prev + c)[w2] == z;
                                    if w2 < prev.len() {
                                        assert((prev + d)[w2] == z);
                                    } else {
                                        assert(c[w2 - prev.len()] == z);
                                        assert(c.to_set().contains(z));
                                        let w3 = choose|w3: int| 0 <= w3 < d.len() && d[w3] == z;
                                        assert((prev + d)[prev.len() + w3] == z);
                                    }
                                }
                            }
                        }
                        lemma_seq_distinct_by_count(prev + c, prev + d);
                        lemma_clique_same_vertices(m, prev + c, prev + d);
                        assert(prev.push(vi) + rest =~= prev + d);
                        assert(rest.to_set().subset_of(nv.subrange(0, nv.len() as int).to_set())) by {
                            assert forall|z: usize| rest.to_set().contains(z) implies nv.to_set().contains(z) by {
                                let w2 = choose|w2: int| 0 <= w2 < rest.len() && rest[w2] == z;
                                let ww = if w2 < p { w2 } else { w2 + 1 };
                                assert(c[ww] == z);
                                assert(ww != p);
                                assert(c.to_set().contains(z));
                                assert(us.contains(z));
                                let q = choose|q: int| 0 <= q < u@.len() - start && u@.subrange(start as int, u@.len() as int)[q] == z;
                                assert(u@[start + q] == z);
                                if start + q < s0 {
                                    assert(u@.subrange(start as int, s0 as int)[q] == z);
                                    assert(u@.subrange(start as int, s0 as int).to_set().contains(z));
                                }
                                assert(start + q != s0) by {
                                    assert(c[p] == vi && c[ww] == z && ww != p);
                                }
                                assert((prev + d)[prev.len() as int] == vi && (prev + d)[prev.len() + 1 + w2] == z);
                                assert(m[vi as int][z as int]);
                                assert(nv.contains(u@[start + q]));
                            }
                        }
                        assert(extends(m, prev.push(vi), rest, nv.subrange(0, nv.len() as int).to_set()));
                    }
                }
            }
        }
        proof {
            assert forall|c: Seq<usize>| #[trigger] extends(m, cand0, c, us) implies size + c.len() <= *max by {
                if c.to_set().disjoint(u@.subrange(start as int, s as int).to_set()) {
                    assert(s == u@.len());
                    if c.len() > 0 {
                        assert(c.to_set().contains(c[0]));
                        assert(us.contains(c[0]));
                    }
                }
            }
        }
    }
}

/// Vertex `y` comes at or after vertex `x` in the order `v`.
pub open spec fn comes_after(v: Seq<usize>, x: usize, y: usize) -> bool {
    exists|j: int, k: int| 0 <= j <= k < v.len() && v[j] == x && v[k] == y
}

/// The vertices at or after `x` in the order `v`.
pub open spec fn after_set(v: Seq<usize>, x: usize) -> Set<usize> {
    Set::new(|y: usize| comes_after(v, x, y))
}

/// Every clique whose vertices lie in `s` has at most `k` of them.
pub open spec fn cliques_bounded(m: Seq<Seq<bool>>, s: Set<usize>, k: nat) -> bool {
    forall|c: Seq<usize>| #[trigger] is_clique_of(m, c) && c.to_set().subset_of(s) ==> c.len() <= k
}

/// `c` extends the clique `cand` by vertices of `s`.
pub open spec fn extends(m: Seq<Seq<bool>>, cand: Seq<usize>, c: Seq<usize>, s: Set<usize>) -> bool {
    is_clique_of(m, cand + c) && c.to_set().subset_of(s)
}

/// A sequence of distinct vertices with the vertices of a clique is a
/// clique.
proof fn lemma_clique_same_vertices(m: Seq<Seq<bool>>, a: Seq<usize>, b: Seq<usize>)
    requires
        is_clique_of(m, a),
        b.no_duplicates(),
        a.to_set() == b.to_set(),
    ensures
        is_clique_of(m, b),
{
    assert forall|i: int| 0 <= i < b.len() implies (#[trigger] b[i]) < m.len() by {
        assert(b.to_set().contains(b[i]));
        let p = choose|p: int| 0 <= p < a.len() && a[p] == b[i];
    }
    assert forall|i: int, j: int| #![trigger b[i], b[j]] 0 <= i < b.len() && 0 <= j < b.len() && i != j implies b[i] != b[j] && m[b[i] as int][b[j] as int] by {
        assert(b.to_set().contains(b[i]) && b.to_set().contains(b[j]));
        let p = choose|p: int| 0 <= p < a.len() && a[p] == b[i];
        let q = choose|q: int| 0 <= q < a.len() && a[q] == b[j];
        assert(a[p] != a[q] || p == q);
    }
}

/// The vertices added to a clique form a clique, each once, apart from it.
proof fn lemma_clique_tail(m: Seq<Seq<bool>>, cand: Seq<usize>, c: Seq<usize>)
    requires
        is_clique_of(m, cand + c),
    ensures
        is_clique_of(m, c),
        c.no_duplicates(),
        forall|k: int| 0 <= k < c.len() ==> !cand.contains(#[trigger] c[k]),
{
    let d = cand + c;
    assert forall|i: int| 0 <= i < c.len() implies (#[trigger] c[i]) < m.len() by {
        assert(d[cand.len() + i] == c[i]);
    }
    assert forall|i: int, j: int| #![trigger c[i], c[j]] 0 <= i < c.len() && 0 <= j < c.len() && i != j implies c[i] != c[j] && m[c[i] as int][c[j] as int] by {
        assert(d[cand.len() + i] == c[i] && d[cand.len() + j] == c[j]);
    }
    assert forall|k: int| 0 <= k < c.len() implies !cand.contains(#[trigger] c[k]) by {
        if cand.contains(c[k]) {
            let p = choose|p: int| 0 <= p < cand.len() && cand[p] == c[k];
            assert(d[p] == c[k] && d[cand.len() + k] == c[k]);
        }
    }
}

/// A sequence of distinct vertices of another sequence is no longer.
proof fn lemma_distinct_within(c: Seq<usize>, w: Seq<usize>)
    requires
        c.no_duplicates(),
        c.to_set().subset_of(w.to_set()),
    ensures
        c.len() <= w.len(),
{
    broadcast use vstd::seq_lib::seq_to_set_is_finite;
    c.unique_seq_to_set();
    vstd::set_lib::lemma_len_subset(c.to_set(), w.to_set());
    w.lemma_cardinality_of_set();
}

/// Every vertex below `n` appears in an order of the `n` vertices.
proof fn lemma_order_onto(v: Seq<usize>, n: nat)
    requires
        n < 0x4000_0000,
        is_permutation(v, n),
    ensures
        forall|x: usize| x < n ==> v.contains(x),
{
    broadcast use vstd::seq_lib::seq_to_set_is_finite;
    let full = Set::new(|x: usize| x < n);
    assert(v.to_set().subset_of(full)) by {
        assert forall|x: usize| v.to_set().contains(x) implies full.contains(x) by {
            let t = choose|t: int| 0 <= t < v.len() && v[t] == x;
        }
    }
    v.unique_seq_to_set();
    lemma_range_len(n);
    assert forall|x: usize| x < n implies v.contains(x) by {
        if !v.contains(x) {
            assert(v.to_set().subset_of(full.remove(x)));
            vstd::set_lib::lemma_len_subset(v.to_set(), full.remove(x));
            assert(full.contains(x));
        }
    }
}

/// In an order without repetitions, the vertices at or after `v[p]` are
/// those from position `p` on.
proof fn lemma_after_suffix(v: Seq<usize>, p: int)
    requires
        v.no_duplicates(),
        0 <= p < v.len(),
    ensures
        after_set(v, v[p]) == v.subrange(p, v.len() as int).to_set(),
{
    let t = v.subrange(p, v.len() as int);
    assert forall|y: usize| after_set(v, v[p]).contains(y) <==> t.to_set().contains(y) by {
        if after_set(v, v[p]).contains(y) {
            let (j, k) = choose|j: int, k: int| 0 <= j <= k < v.len() && v[j] == v[p] && v[k] == y;
            assert(j == p);
            assert(t[k - p] == y);
        }
        if t.to_set().contains(y) {
            let q = choose|q: int| 0 <= q < t.len() && t[q] == y;
            assert(v[p + q] == y);
            assert(comes_after(v, v[p], y));
        }
    }
    assert(after_set(v, v[p]) =~= t.to_set());
}

/// The vertices of `c` that are among `u[start..]` and none of `u[start..s]`
/// are among `u[s..]`.
proof fn lemma_split_rest(u: Seq<usize>, start: int, s: int, c: Seq<usize>)
    requires
        0 <= start <= s <= u.len(),
        c.to_set().subset_of(u.subrange(start, u.len() as int).to_set()),
        c.to_set().disjoint(u.subrange(start, s).to_set()),
    ensures
        c.to_set().subset_of(u.subrange(s, u.len() as int).to_set()),
{
    assert forall|y: usize| c.to_set().contains(y) implies u.subrange(s, u.len() as int).to_set().contains(y) by {
        assert(u.subrange(start, u.len() as int).to_set().contains(y));
        let w = choose|w: int| 0 <= w < u.len() - start && u.subrange(start, u.len() as int)[w] == y;
        if start + w < s {
            assert(u.subrange(start, s)[w] == y);
            assert(u.subrange(start, s).to_set().contains(y));
        } else {
            assert(u.subrange(s, u.len() as int)[start + w - s] == y);
        }
    }
}

/// A sequence with the elements of a sequence without repetitions, as many
/// of them, has no repetitions either.
proof fn lemma_seq_distinct_by_count(a: Seq<usize>, b: Seq<usize>)
    requires
        a.no_duplicates(),
        a.to_set() == b.to_set(),
        a.len() == b.len(),
    ensures
        b.no_duplicates(),
{
    a.unique_seq_to_set();
    if !b.no_duplicates() {
        let (i, j) = choose|i: int, j: int| 0 <= i < b.len() && 0 <= j < b.len() && i != j && b[i] == b[j];
        let r = b.remove(j);
        assert(r.to_set() =~= b.to_set()) by {
            assert forall|y: usize| b.to_set().contains(y) implies r.to_set().contains(y) by {
                let w = choose|w: int| 0 <= w < b.len() && b[w] == y;
                let w2 = if w == j { i } else { w };
                let ww = if w2 < j { w2 } else { w2 - 1 };
                assert(r[ww] == y);
            }
            assert forall|y: usize| r.to_set().contains(y) implies b.to_set().contains(y) by {
                let w = choose|w: int| 0 <= w < r.len() && r[w] == y;
                let ww = if w < j { w } else { w + 1 };
                assert(b[ww] == y);
            }
        }
        r.lemma_cardinality_of_set();
    }
}

/// A copy of a list of vertices.
fn copy_vertices(v: &Vec<usize>) -> (r: Vec<usize>)
    ensures
        r@ == v@,
{
    let mut r: Vec<usize> = Vec::new();
    let mut i: usize = 0;
    while i < v.len()
        invariant
            i <= v@.len(),
            r@ == v@.subrange(0, i as int),
        decreases v@.len() - i,
    {
        r.push(v[i]);
        i += 1;
    }
    r
}

/// A clique grows by a vertex joined to each of its members, and stays
/// within the vertices.
proof fn lemma_join_clique(m: Seq<Seq<bool>>, c: Seq<usize>, x: usize, n: nat)
    requires
        is_clique_of(m, c),
        m.len() == n,
        x < n,
        !m[x as int][x as int],
        forall|a: int, b: int| 0 <= a < n && 0 <= b < n ==> #[trigger] m[a][b] == m[b][a],
        forall|k: int| 0 <= k < c.len() ==> m[c[k] as int][x as int],
    ensures
        is_clique_of(m, c.push(x)),
{
    let d = c.push(x);
    assert forall|i: int| 0 <= i < d.len() implies (#[trigger] d[i]) < m.len() by {
        if i < c.len() {
            assert(d[i] == c[i]);
        }
    }
    assert forall|i: int, j: int| 0 <= i < d.len() && 0 <= j < d.len() && i != j implies d[i] != d[j] && #[trigger] m[d[i] as int][d[j] as int] by {
        if i < c.len() && j < c.len() {
            assert(d[i] == c[i] && d[j] == c[j]);
            assert(c[i] != c[j] && m[c[i] as int][c[j] as int]);
        } else if i == c.len() {
            assert(c[j] < n);
            assert(d[i] == x && d[j] == c[j]);
            assert(m[c[j] as int][x as int]);
            assert(m[x as int][c[j] as int] == m[c[j] as int][x as int]);
        } else {
            assert(d[j] == x && d[i] == c[i]);
            assert(c[i] < n);
            assert(m[c[i] as int][x as int]);
        }
    }
}

/// When no vertex remains, all are placed.
proof fn lemma_all_placed(order: Seq<usize>, n: nat, remaining: Seq<bool>)
    requires
        n < 0x4000_0000,
        remaining.len() == n,
        order.no_duplicates(),
        order.len() <= n,
        forall|q: int| 0 <= q < order.len() ==> (#[trigger] order[q]) < n,
        forall|q: int| 0 <= q < n ==> (#[trigger] remaining[q] <==> !order.contains(q as usize)),
        !exists|q: int| 0 <= q < n && #[trigger] remaining[q],
    ensures
        order.len() == n,
{
    let s = order.to_set();
    let full = Set::new(|x: usize| x < n);
    assert forall|x: usize| full.contains(x) implies s.contains(x) by {
        assert(!remaining[x as int]);
    }
    assert(s =~= full) by {
        assert forall|x: usize| s.contains(x) implies full.contains(x) by {
            let t = choose|t: int| 0 <= t < order.len() && order[t] == x;
        }
    }
    order.unique_seq_to_set();
    lemma_range_len(n);
}

/// Placing `mx` takes one off the open degree of each of its neighbours.
proof fn lemma_open_degree_step(adj: Seq<Seq<usize>>, q: int, placed: Set<usize>, mx: usize)
    requires
        adj_simple(adj),
        0 <= q < adj.len(),
        adj.len() < 0x4000_0000,
        mx < adj.len(),
        !placed.contains(mx),
    ensures
        open_degree(adj, q, placed) == open_degree(adj, q, placed.insert(mx))
            + (if adj[mx as int].contains(q as usize) { 1nat } else { 0nat }),
{
    broadcast use vstd::seq_lib::seq_to_set_is_finite;
    let d = adj[q].to_set().difference(placed);
    assert(adj[q].to_set().difference(placed.insert(mx)) =~= d.remove(mx));
    assert((q as usize) as int == q);
    assert(adj[mx as int].contains(q as usize) <==> adj[q].contains((mx as int) as usize));
    if d.contains(mx) {
        assert(d.remove(mx).len() == d.len() - 1);
    } else {
        assert(d.remove(mx) =~= d);
    }
}

/// A sequence of distinct vertices below `n` has at most `n` entries.
proof fn lemma_distinct_below(s: Seq<usize>, n: nat)
    requires
        n < 0x4000_0000,
        s.no_duplicates(),
        forall|q: int| 0 <= q < s.len() ==> (#[trigger] s[q]) < n,
    ensures
        s.len() <= n,
{
    let full = Set::new(|x: usize| x < n);
    assert(s.to_set().subset_of(full)) by {
        assert forall|x: usize| s.to_set().contains(x) implies full.contains(x) by {
            let t = choose|t: int| 0 <= t < s.len() && s[t] == x;
        }
    }
    s.unique_seq_to_set();
    lemma_range_len(n);
    vstd::set_lib::lemma_len_subset(s.to_set(), full);
}

/// The vertices below `n` are `n` many.
proof fn lemma_range_len(n: nat)
    requires
        n < 0x4000_0000,
    ensures
        Set::new(|x: usize| x < n).finite(),
        Set::new(|x: usize| x < n).len() == n,
    decreases n,
{
    if n == 0 {
        assert(Set::new(|x: usize| x < n) =~= Set::<usize>::empty());
    } else {
        lemma_range_len((n - 1) as nat);
        let prev = Set::new(|x: usize| x < (n - 1) as nat);
        assert(Set::new(|x: usize| x < n) =~= prev.insert((n - 1) as usize));
        assert(!prev.contains((n - 1) as usize));
    }
}

} // verus!
