use vstd::prelude::*;

verus! {

/// The subsequences of `v` of length `k`, in the order in which they are
/// taken when the positions are chosen from the first on.
pub open spec fn combos(v: Seq<usize>, k: nat) -> Seq<Seq<usize>>
    decreases v.len(),
{
    if k == 0 {
        seq![Seq::empty()]
    } else if v.len() == 0 {
        Seq::empty()
    } else {
        combos(v.drop_first(), (k - 1) as nat).map_values(|c: Seq<usize>| seq![v[0]] + c) + combos(v.drop_first(), k)
    }
}

/// Every subsequence of length `k` of `v` is an edge of `edges`.
pub open spec fn clique_spec(edges: Set<Set<usize>>, k: nat, v: Seq<usize>) -> bool {
    forall|c: Seq<usize>| #[trigger] combos(v, k).contains(c) ==> edges.contains(c.to_set())
}

/// One more than the largest element of `s`, or zero.
pub open spec fn seq_bound(s: Seq<usize>) -> nat
    decreases s.len(),
{
    if s.len() == 0 {
        0
    } else {
        let b = seq_bound(s.drop_last());
        if s.last() + 1 > b { (s.last() + 1) as nat } else { b }
    }
}

/// One more than the largest node of the edges, or zero.
pub open spec fn edges_bound(vh: Seq<Seq<usize>>) -> nat
    decreases vh.len(),
{
    if vh.len() == 0 {
        0
    } else {
        let b = edges_bound(vh.drop_last());
        if seq_bound(vh.last()) > b { seq_bound(vh.last()) } else { b }
    }
}

/// The edges as sets.
pub open spec fn edge_set_of(vh: Seq<Seq<usize>>) -> Set<Set<usize>> {
    Set::new(|s: Set<usize>| exists|k: int| 0 <= k < vh.len() && #[trigger] vh[k].to_set() == s)
}

/// The nodes that lie on some edge.
pub open spec fn nodes_of(vh: Seq<Seq<usize>>) -> Set<usize> {
    Set::new(|x: usize| exists|k: int| 0 <= k < vh.len() && #[trigger] vh[k].contains(x))
}

/// The views of some vectors of nodes.
pub open spec fn node_vecs_view(v: Seq<Vec<usize>>) -> Seq<Seq<usize>> {
    v.map_values(|x: Vec<usize>| x@)
}

/// A hypergraph whose edges all have the size of the first.
pub struct HyperGraph {
    nodes: usize,
    keys: Vec<usize>,
    m: Vec<Vec<usize>>,
    rank: usize,
}

impl HyperGraph {
    /// The listed nodes are distinct and below the bound.
    #[verifier::type_invariant]
    spec fn inv(self) -> bool {
        &&& self.keys@.no_duplicates()
        &&& forall|i: int| 0 <= i < self.keys@.len() ==> self.keys@[i] < self.nodes
    }

    /// The edges, as sets.
    pub closed spec fn edges(&self) -> Set<Set<usize>> {
        edge_set_of(node_vecs_view(self.m@))
    }

    /// The nodes that lie on some edge, each once.
    pub closed spec fn node_list(&self) -> Seq<usize> {
        self.keys@
    }

    /// The size of the edges.
    pub closed spec fn rank_spec(&self) -> nat {
        self.rank as nat
    }

    /// One more than the largest node.
    pub closed spec fn node_bound(&self) -> nat {
        self.nodes as nat
    }
}

proof fn lemma_combos(v: Seq<usize>, k: nat)
    ensures
        forall|c: Seq<usize>| #[trigger] combos(v, k).contains(c) ==> c.len() == k && c.to_set().subset_of(v.to_set()),
    decreases v.len(),
{
    if k > 0 && v.len() > 0 {
        let t = v.drop_first();
        lemma_combos(t, (k - 1) as nat);
        lemma_combos(t, k);
        let a = combos(t, (k - 1) as nat);
        let f = |c: Seq<usize>| seq![v[0]] + c;
        assert forall|c: Seq<usize>| #[trigger] combos(v, k).contains(c) implies c.len() == k && c.to_set().subset_of(v.to_set()) by {
            let all = a.map_values(f) + combos(t, k);
            let w = choose|w: int| 0 <= w < all.len() && all[w] == c;
            if w < a.len() {
                let c0 = a[w];
                assert(a.contains(c0));
                assert(c == seq![v[0]] + c0);
                assert forall|x: usize| c.to_set().contains(x) implies v.to_set().contains(x) by {
                    let q = choose|q: int| 0 <= q < c.len() && c[q] == x;
                    if q == 0 {
                        assert(v[0] == x);
                    } else {
                        assert(c0[q - 1] == x);
                        assert(c0.to_set().contains(x));
                        let r = choose|r: int| 0 <= r < t.len() && t[r] == x;
                        assert(v[r + 1] == x);
                    }
                }
            } else {
                let c1 = combos(t, k)[w - a.len()];
                assert(combos(t, k).contains(c1));
                assert forall|x: usize| c.to_set().contains(x) implies v.to_set().contains(x) by {
                    assert(c1.to_set().contains(x));
                    let r = choose|r: int| 0 <= r < t.len() && t[r] == x;
                    assert(v[r + 1] == x);
                }
            }
        }
    }
}

/// The positions of a set of nodes in a list of nodes: every node of `v`
/// lies in `u`, each node once.
fn add_node(u: &mut Vec<usize>, x: usize)
    ensures
        final(u)@.to_set() == old(u)@.to_set().insert(x),
        old(u)@.no_duplicates() ==> final(u)@.no_duplicates(),
{
    let mut i: usize = 0;
    while i < u.len()
        invariant
            i <= u@.len(),
            forall|j: int| 0 <= j < i ==> u@[j] != x,
        decreases u@.len() - i,
    {
        if u[i] == x {
            assert(u@.to_set().insert(x) =~= u@.to_set()) by {
                assert(u@.to_set().contains(u@[i as int]));
            }
            return;
        }
        i += 1;
    }
    let ghost before = u@;
    u.push(x);
    proof {
        before.lemma_push_to_set_commute(x);
        if before.no_duplicates() {
            assert forall|a: int, b: int| 0 <= a < b < u@.len() implies u@[a] != u@[b] by {
                if b == before.len() {
                    assert(u@[a] == before[a]);
                }
            }
        }
    }
}

/// Whether `a` and `b` hold the same nodes.
fn same_nodes(a: &Vec<usize>, b: &Vec<usize>) -> (r: bool)
    ensures
        r == (a@.to_set() == b@.to_set()),
{
    let mut i: usize = 0;
    while i < a.len()
        invariant
            i <= a@.len(),
            forall|j: int| 0 <= j < i ==> b@.contains(#[trigger] a@[j]),
        decreases a@.len() - i,
    {
        let mut found = false;
        let mut j: usize = 0;
        while j < b.len()
            invariant
                j <= b@.len(),
                i < a@.len(),
                found ==> b@.contains(a@[i as int]),
                !found ==> forall|q: int| 0 <= q < j ==> b@[q] != a@[i as int],
            decreases b@.len() - j,
        {
            if b[j] == a[i] {
                found = true;
            }
            j += 1;
        }
        if !found {
            assert(a@.to_set().contains(a@[i as int]));
            assert(!b@.to_set().contains(a@[i as int]));
            return false;
        }
        i += 1;
    }
    let mut j: usize = 0;
    while j < b.len()
        invariant
            j <= b@.len(),
            forall|q: int| 0 <= q < a@.len() ==> b@.contains(#[trigger] a@[q]),
            forall|q: int| 0 <= q < j ==> a@.contains(#[trigger] b@[q]),
        decreases b@.len() - j,
    {
        let mut found = false;
        let mut i: usize = 0;
        while i < a.len()
            invariant
                i <= a@.len(),
                j < b@.len(),
                found ==> a@.contains(b@[j as int]),
                !found ==> forall|q: int| 0 <= q < i ==> a@[q] != b@[j as int],
            decreases a@.len() - i,
        {
            if a[i] == b[j] {
                found = true;
            }
            i += 1;
        }
        if !found {
            assert(b@.to_set().contains(b@[j as int]));
            assert(!a@.to_set().contains(b@[j as int]));
            return false;
        }
        j += 1;
    }
    assert(a@.to_set() =~= b@.to_set()) by {
        assert forall|x: usize| a@.to_set().contains(x) implies b@.to_set().contains(x) by {
            let q = choose|q: int| 0 <= q < a@.len() && a@[q] == x;
            assert(b@.contains(a@[q]));
        }
        assert forall|x: usize| b@.to_set().contains(x) implies a@.to_set().contains(x) by {
            let q = choose|q: int| 0 <= q < b@.len() && b@[q] == x;
            assert(a@.contains(b@[q]));
        }
    }
    true
}

/// A copy of the nodes.
fn copy_nodes(v: &Vec<usize>) -> (r: Vec<usize>)
    ensures
        r@ == v@,
{
    let mut r: Vec<usize> = Vec::new();
    let mut i: usize = 0;
    while i < v.len()
        invariant
            i <= v@.len(),
            r@ == v@.subrange(0, i as int),
        decreases v@.len() - i,
    {
        r.push(v[i]);
        i += 1;
        assert(r@ =~= v@.subrange(0, i as int));
    }
    assert(v@.subrange(0, v@.len() as int) =~= v@);
    r
}

proof fn lemma_seq_bound(v: Seq<usize>)
    ensures
        forall|i: int| 0 <= i < v.len() ==> v[i] < seq_bound(v),
    decreases v.len(),
{
    if v.len() > 0 {
        lemma_seq_bound(v.drop_last());
        assert forall|i: int| 0 <= i < v.len() implies v[i] < seq_bound(v) by {
            if i < v.len() - 1 {
                assert(v.drop_last()[i] == v[i]);
            }
        }
    }
}

proof fn lemma_edges_bound(hv: Seq<Seq<usize>>)
    ensures
        forall|x: usize| nodes_of(hv).contains(x) ==> x < edges_bound(hv),
    decreases hv.len(),
{
    if hv.len() > 0 {
        lemma_edges_bound(hv.drop_last());
        lemma_seq_bound(hv.last());
        assert forall|x: usize| nodes_of(hv).contains(x) implies x < edges_bound(hv) by {
            let k = choose|k: int| 0 <= k < hv.len() && #[trigger] hv[k].contains(x);
            if k < hv.len() - 1 {
                assert(hv.drop_last()[k] == hv[k]);
                assert(nodes_of(hv.drop_last()).contains(x));
            } else {
                let i = choose|i: int| 0 <= i < hv.last().len() && hv.last()[i] == x;
            }
        }
    }
}

impl HyperGraph {
    /// The hypergraph of the edges `vh`: its nodes are below one more than
    /// the largest node of an edge, and its edges have the size of the
    /// first (two when there is none).
    pub fn from_hyperedges(vh: Vec<Vec<usize>>) -> (r: HyperGraph)
        requires
            forall|k: int, i: int| 0 <= k < vh@.len() && 0 <= i < vh@[k]@.len() ==> #[trigger] vh@[k]@[i] < usize::MAX,
        ensures
            r.node_bound() == edges_bound(node_vecs_view(vh@)),
            r.rank_spec() == (if vh@.len() > 0 { vh@[0]@.len() } else { 2 }),
            r.edges() == edge_set_of(node_vecs_view(vh@)),
            r.node_list().no_duplicates(),
            r.node_list().to_set() == nodes_of(node_vecs_view(vh@)),
    {
        let ghost hv = node_vecs_view(vh@);
        let rank = if vh.len() > 0 { vh[0].len() } else { 2 };
        let mut nodes: usize = 0;
        let mut keys: Vec<usize> = Vec::new();
        let mut k: usize = 0;
        assert(keys@.to_set() =~= nodes_of(hv.subrange(0, 0)));
        while k < vh.len()
            invariant
                k <= vh@.len(),
                hv == node_vecs_view(vh@),
                forall|k: int, i: int| 0 <= k < vh@.len() && 0 <= i < vh@[k]@.len() ==> #[trigger] vh@[k]@[i] < usize::MAX,
                nodes == edges_bound(hv.subrange(0, k as int)),
                keys@.no_duplicates(),
                keys@.to_set() == nodes_of(hv.subrange(0, k as int)),
            decreases vh@.len() - k,
        {
            let h = &vh[k];
            assert(h@ == hv[k as int]);
            let mut b: usize = 0;
            let mut i: usize = 0;
            let ghost before = keys@.to_set();
            while i < h.len()
                invariant
                    i <= h@.len(),
                    k < vh@.len(),
                    h@ == vh@[k as int]@,
                    forall|k: int, i: int| 0 <= k < vh@.len() && 0 <= i < vh@[k]@.len() ==> #[trigger] vh@[k]@[i] < usize::MAX,
                    b == seq_bound(h@.subrange(0, i as int)),
                    keys@.no_duplicates(),
                    keys@.to_set() == before.union(h@.subrange(0, i as int).to_set()),
                decreases h@.len() - i,
            {
                let x = h[i];
                assert(vh@[k as int]@[i as int] < usize::MAX);
                if x + 1 > b {
                    b = x + 1;
                }
                add_node(&mut keys, x);
                proof {
                    let sub = h@.subrange(0, i + 1);
                    assert(sub.drop_last() =~= h@.subrange(0, i as int));
                    assert(sub =~= h@.subrange(0, i as int).push(x));
                    h@.subrange(0, i as int).lemma_push_to_set_commute(x);
                    assert(keys@.to_set() =~= before.union(sub.to_set()));
                }
                i += 1;
            }
            assert(h@.subrange(0, h@.len() as int) =~= h@);
            if b > nodes {
                nodes = b;
            }
            proof {
                let sub = hv.subrange(0, k + 1);
                assert(sub.drop_last() =~= hv.subrange(0, k as int));
                assert(sub.last() == h@);
                assert(keys@.to_set() =~= nodes_of(sub)) by {
                    assert forall|x: usize| keys@.to_set().contains(x) implies nodes_of(sub).contains(x) by {
                        if h@.to_set().contains(x) {
                            assert(sub[k as int].contains(x));
                        } else {
                            let q = choose|q: int| 0 <= q < k && #[trigger] hv.subrange(0, k as int)[q].contains(x);
                            assert(sub[q].contains(x));
                        }
                    }
                    assert forall|x: usize| nodes_of(sub).contains(x) implies keys@.to_set().contains(x) by {
                        let q = choose|q: int| 0 <= q < k + 1 && #[trigger] sub[q].contains(x);
                        if q < k {
                            assert(hv.subrange(0, k as int)[q].contains(x));
                        } else {
                            assert(h@.to_set().contains(x));
                        }
                    }
                }
            }
            k += 1;
        }
        assert(hv.subrange(0, hv.len() as int) =~= hv);
        let mut m: Vec<Vec<usize>> = Vec::new();
        let mut k: usize = 0;
        while k < vh.len()
            invariant
                k <= vh@.len(),
                hv == node_vecs_view(vh@),
                node_vecs_view(m@) == hv.subrange(0, k as int),
            decreases vh@.len() - k,
        {
            let c = copy_nodes(&vh[k]);
            let ghost before = m@;
            m.push(c);
            proof {
                assert(c@ == hv[k as int]);
                assert(node_vecs_view(m@) =~= node_vecs_view(before).push(c@));
            }
            k += 1;
            assert(node_vecs_view(m@) =~= hv.subrange(0, k as int));
        }
        assert(hv.subrange(0, hv.len() as int) =~= hv);
        proof {
            lemma_edges_bound(hv);
            assert forall|i: int| 0 <= i < keys@.len() implies keys@[i] < nodes by {
                assert(keys@.to_set().contains(keys@[i]));
            }
        }
        HyperGraph { nodes, keys, m, rank }
    }
}

proof fn lemma_combos_step(v: Seq<usize>, start: int, k: nat)
    requires
        0 <= start < v.len(),
        k > 0,
    ensures
        combos(v.skip(start), k) == combos(v.skip(start + 1), (k - 1) as nat).map_values(|c: Seq<usize>| seq![v[start]] + c)
            + combos(v.skip(start + 1), k),
{
    assert(v.skip(start).drop_first() =~= v.skip(start + 1));
    assert(v.skip(start)[0] == v[start]);
}

proof fn lemma_combos_distinct(v: Seq<usize>, k: nat)
    requires
        v.no_duplicates(),
    ensures
        forall|c: Seq<usize>| #[trigger] combos(v, k).contains(c) ==> c.no_duplicates(),
    decreases v.len(),
{
    if k > 0 && v.len() > 0 {
        let t = v.drop_first();
        assert(t.no_duplicates());
        lemma_combos_distinct(t, (k - 1) as nat);
        lemma_combos_distinct(t, k);
        lemma_combos(t, (k - 1) as nat);
        let a = combos(t, (k - 1) as nat);
        let f = |c: Seq<usize>| seq![v[0]] + c;
        assert forall|c: Seq<usize>| #[trigger] combos(v, k).contains(c) implies c.no_duplicates() by {
            let all = a.map_values(f) + combos(t, k);
            let w = choose|w: int| 0 <= w < all.len() && all[w] == c;
            if w < a.len() {
                let c0 = a[w];
                assert(a.contains(c0));
                assert(c == seq![v[0]] + c0);
                assert forall|i: int, j: int| 0 <= i < j < c.len() implies c[i] != c[j] by {
                    if i == 0 {
                        assert(c0[j - 1] == c[j]);
                        assert(c0.to_set().contains(c0[j - 1]));
                        let q = choose|q: int| 0 <= q < t.len() && t[q] == c0[j - 1];
                        assert(v[q + 1] == c[j]);
                    } else {
                        assert(c[i] == c0[i - 1] && c[j] == c0[j - 1]);
                    }
                }
            } else {
                assert(combos(t, k).contains(combos(t, k)[w - a.len()]));
            }
        }
    }
}

proof fn lemma_combos_complete(v: Seq<usize>, d: Seq<usize>)
    requires
        v.no_duplicates(),
        d.no_duplicates(),
        d.to_set().subset_of(v.to_set()),
    ensures
        exists|c: Seq<usize>| #[trigger] combos(v, d.len()).contains(c) && c.to_set() == d.to_set(),
    decreases v.len(),
{
    if d.len() == 0 {
        assert(combos(v, 0)[0] == Seq::<usize>::empty());
        assert(combos(v, 0).contains(Seq::<usize>::empty()));
        assert(d.to_set() =~= Seq::<usize>::empty().to_set());
    } else if v.len() == 0 {
        assert(d.to_set().contains(d[0]));
        assert(false);
    } else {
        let t = v.drop_first();
        let x = v[0];
        assert(t.no_duplicates());
        let a = combos(t, (d.len() - 1) as nat);
        let b = combos(t, d.len());
        let f = |c: Seq<usize>| seq![x] + c;
        let all = a.map_values(f) + b;
        assert(combos(v, d.len()) == all);
        if d.to_set().contains(x) {
            let j = choose|j: int| 0 <= j < d.len() && d[j] == x;
            let e = d.remove(j);
            assert forall|p: int, q: int| 0 <= p < q < e.len() implies e[p] != e[q] by {
                let pp = if p < j { p } else { p + 1 };
                let qq = if q < j { q } else { q + 1 };
                assert(e[p] == d[pp] && e[q] == d[qq]);
            }
            assert(e.to_set().subset_of(t.to_set())) by {
                assert forall|y: usize| e.to_set().contains(y) implies t.to_set().contains(y) by {
                    let p = choose|p: int| 0 <= p < e.len() && e[p] == y;
                    let pp = if p < j { p } else { p + 1 };
                    assert(d[pp] == y);
                    assert(pp != j);
                    assert(d.to_set().contains(y));
                    let q = choose|q: int| 0 <= q < v.len() && v[q] == y;
                    if q == 0 {
                        assert(d[pp] == d[j]);
                    }
                    assert(t[q - 1] == y);
                }
            }
            lemma_combos_complete(t, e);
            let c0 = choose|c: Seq<usize>| #[trigger] combos(t, e.len()).contains(c) && c.to_set() == e.to_set();
            let w = choose|w: int| 0 <= w < a.len() && a[w] == c0;
            assert(all[w] == f(c0));
            assert(all.contains(f(c0)));
            let fc = f(c0);
            assert(fc == seq![x] + c0);
            assert(fc.to_set() =~= d.to_set()) by {
                assert forall|y: usize| fc.to_set().contains(y) <==> d.to_set().contains(y) by {
                    if fc.to_set().contains(y) {
                        let p = choose|p: int| 0 <= p < fc.len() && fc[p] == y;
                        if p > 0 {
                            assert(c0[p - 1] == y);
                            assert(c0.to_set().contains(y));
                            let q = choose|q: int| 0 <= q < e.len() && e[q] == y;
                            let qq = if q < j { q } else { q + 1 };
                            assert(d[qq] == y);
                        }
                    }
                    if d.to_set().contains(y) {
                        let p = choose|p: int| 0 <= p < d.len() && d[p] == y;
                        if p == j {
                            assert(fc[0] == y);
                        } else {
                            let pp = if p < j { p } else { p - 1 };
                            assert(e[pp] == y);
                            assert(e.to_set().contains(y));
                            let q = choose|q: int| 0 <= q < c0.len() && c0[q] == y;
                            assert(fc[q + 1] == y);
                        }
                    }
                }
            }
        } else {
            assert(d.to_set().subset_of(t.to_set())) by {
                assert forall|y: usize| d.to_set().contains(y) implies t.to_set().contains(y) by {
                    let q = choose|q: int| 0 <= q < v.len() && v[q] == y;
                    assert(q != 0);
                    assert(t[q - 1] == y);
                }
            }
            lemma_combos_complete(t, d);
            let c0 = choose|c: Seq<usize>| #[trigger] combos(t, d.len()).contains(c) && c.to_set() == d.to_set();
            let w = choose|w: int| 0 <= w < b.len() && b[w] == c0;
            assert(all[a.len() + w] == c0);
            assert(all.contains(c0));
        }
    }
}

proof fn lemma_combos_remove(v: Seq<usize>, j: int, k: nat)
    requires
        0 <= j < v.len(),
    ensures
        forall|c: Seq<usize>| #[trigger] combos(v.remove(j), k).contains(c) ==> combos(v, k).contains(c),
    decreases v.len(),
{
    if k > 0 {
        let t = v.drop_first();
        let x = v[0];
        let a = combos(t, (k - 1) as nat);
        let b = combos(t, k);
        let f = |c: Seq<usize>| seq![x] + c;
        let all = a.map_values(f) + b;
        assert(combos(v, k) == all);
        if j == 0 {
            assert(v.remove(0) =~= t);
            assert forall|c: Seq<usize>| #[trigger] combos(v.remove(j), k).contains(c) implies combos(v, k).contains(c) by {
                let w = choose|w: int| 0 <= w < b.len() && b[w] == c;
                assert(all[a.len() + w] == c);
            }
        } else {
            let u = v.remove(j);
            let t2 = t.remove(j - 1);
            assert(u.drop_first() =~= t2);
            assert(u[0] == x);
            lemma_combos_remove(t, j - 1, (k - 1) as nat);
            lemma_combos_remove(t, j - 1, k);
            let a2 = combos(t2, (k - 1) as nat);
            let b2 = combos(t2, k);
            assert(combos(u, k) == a2.map_values(f) + b2);
            assert forall|c: Seq<usize>| #[trigger] combos(v.remove(j), k).contains(c) implies combos(v, k).contains(c) by {
                let w = choose|w: int| 0 <= w < (a2.map_values(f) + b2).len() && (a2.map_values(f) + b2)[w] == c;
                if w < a2.len() {
                    assert(a2.contains(a2[w]));
                    assert(a.contains(a2[w]));
                    let w2 = choose|w2: int| 0 <= w2 < a.len() && a[w2] == a2[w];
                    assert(all[w2] == c);
                } else {
                    assert(b2.contains(b2[w - a2.len()]));
                    assert(b.contains(c));
                    let w2 = choose|w2: int| 0 <= w2 < b.len() && b[w2] == c;
                    assert(all[a.len() + w2] == c);
                }
            }
        }
    }
}

proof fn lemma_clique_remove(e: Set<Set<usize>>, r: nat, v: Seq<usize>, j: int)
    requires
        0 <= j < v.len(),
        clique_spec(e, r, v),
    ensures
        clique_spec(e, r, v.remove(j)),
{
    lemma_combos_remove(v, j, r);
}

proof fn lemma_clique_prefix(e: Set<Set<usize>>, r: nat, v: Seq<usize>, i: int)
    requires
        0 <= i <= v.len(),
        clique_spec(e, r, v),
    ensures
        clique_spec(e, r, v.subrange(0, i)),
    decreases v.len() - i,
{
    if i < v.len() {
        lemma_clique_prefix(e, r, v, i + 1);
        assert(v.subrange(0, i + 1).remove(i) =~= v.subrange(0, i));
        lemma_clique_remove(e, r, v.subrange(0, i + 1), i);
    } else {
        assert(v.subrange(0, i) =~= v);
    }
}

proof fn lemma_clique_same_set(e: Set<Set<usize>>, r: nat, c: Seq<usize>, d: Seq<usize>)
    requires
        c.no_duplicates(),
        d.no_duplicates(),
        c.to_set() == d.to_set(),
        clique_spec(e, r, c),
    ensures
        clique_spec(e, r, d),
{
    lemma_combos_distinct(d, r);
    lemma_combos(d, r);
    assert forall|t: Seq<usize>| #[trigger] combos(d, r).contains(t) implies e.contains(t.to_set()) by {
        lemma_combos_complete(c, t);
        let c2 = choose|c2: Seq<usize>| #[trigger] combos(c, t.len()).contains(c2) && c2.to_set() == t.to_set();
    }
}

proof fn lemma_distinct_bounded(c: Seq<usize>, n: nat)
    requires
        c.no_duplicates(),
        forall|i: int| 0 <= i < c.len() ==> c[i] < n,
    ensures
        c.len() <= n,
    decreases n,
{
    if n > 0 {
        if c.contains((n - 1) as usize) {
            let j = choose|j: int| 0 <= j < c.len() && c[j] == (n - 1) as usize;
            let e = c.remove(j);
            assert forall|p: int, q: int| 0 <= p < q < e.len() implies e[p] != e[q] by {
                let pp = if p < j { p } else { p + 1 };
                let qq = if q < j { q } else { q + 1 };
                assert(e[p] == c[pp] && e[q] == c[qq]);
            }
            assert forall|i: int| 0 <= i < e.len() implies e[i] < (n - 1) as nat by {
                let ii = if i < j { i } else { i + 1 };
                assert(e[i] == c[ii]);
                assert(ii != j);
            }
            lemma_distinct_bounded(e, (n - 1) as nat);
        } else {
            assert forall|i: int| 0 <= i < c.len() implies c[i] < (n - 1) as nat by {
                if c[i] == n - 1 {
                    assert(c.contains(c[i]));
                }
            }
            lemma_distinct_bounded(c, (n - 1) as nat);
        }
    } else {
        if c.len() > 0 {
            assert(c[0] < 0);
        }
    }
}

impl HyperGraph {
    /// Whether the nodes of `c` form an edge.
    fn has_edge(&self, c: &Vec<usize>) -> (r: bool)
        ensures
            r == self.edges().contains(c@.to_set()),
    {
        let ghost mv = node_vecs_view(self.m@);
        let mut k: usize = 0;
        while k < self.m.len()
            invariant
                k <= self.m@.len(),
                mv == node_vecs_view(self.m@),
                forall|q: int| 0 <= q < k ==> (#[trigger] mv[q]).to_set() != c@.to_set(),
            decreases self.m@.len() - k,
        {
            if same_nodes(&self.m[k], c) {
                assert(mv[k as int] == self.m@[k as int]@);
                return true;
            }
            assert(mv[k as int] == self.m@[k as int]@);
            k += 1;
        }
        false
    }

    /// Whether, for every subsequence `c` of length `k` of the nodes of `v`
    /// from position `start` on, the nodes of `prefix` with those of `c`
    /// form an edge.
    fn all_in(&self, v: &Vec<usize>, start: usize, k: usize, prefix: &mut Vec<usize>) -> (r: bool)
        requires
            start <= v@.len(),
        ensures
            final(prefix)@ == old(prefix)@,
            r == forall|c: Seq<usize>| #[trigger] combos(v@.skip(start as int), k as nat).contains(c) ==> self.edges().contains(
                (old(prefix)@ + c).to_set(),
            ),
        decreases v@.len() - start,
    {
        let ghost p0 = prefix@;
        if k == 0 {
            let r = self.has_edge(prefix);
            proof {
                assert(combos(v@.skip(start as int), 0) == seq![Seq::<usize>::empty()]);
                assert(p0 + Seq::<usize>::empty() =~= p0);
                assert(combos(v@.skip(start as int), 0).contains(Seq::<usize>::empty())) by {
                    assert(combos(v@.skip(start as int), 0)[0] == Seq::<usize>::empty());
                }
            }
            return r;
        }
        if start == v.len() {
            proof {
                assert(v@.skip(start as int) =~= Seq::<usize>::empty());
            }
            return true;
        }
        let x = v[start];
        let ghost f = |c: Seq<usize>| seq![x] + c;
        let ghost a = combos(v@.skip(start + 1), (k - 1) as nat);
        let ghost b = combos(v@.skip(start + 1), k as nat);
        proof {
            lemma_combos_step(v@, start as int, k as nat);
        }
        prefix.push(x);
        let ra = self.all_in(v, start + 1, k - 1, prefix);
        prefix.pop();
        assert(prefix@ =~= p0);
        let rb = self.all_in(v, start + 1, k, prefix);
        proof {
            let all = a.map_values(f) + b;
            assert(combos(v@.skip(start as int), k as nat) == all);
            if ra && rb {
                assert forall|c: Seq<usize>| #[trigger] all.contains(c) implies self.edges().contains((p0 + c).to_set()) by {
                    let w = choose|w: int| 0 <= w < all.len() && all[w] == c;
                    if w < a.len() {
                        assert(a.contains(a[w]));
                        assert(p0.push(x) + a[w] =~= p0 + c);
                    } else {
                        assert(b.contains(b[w - a.len()]));
                    }
                }
            }
            if !ra {
                let c0 = choose|c: Seq<usize>| #[trigger] a.contains(c) && !self.edges().contains((p0.push(x) + c).to_set());
                let w = choose|w: int| 0 <= w < a.len() && a[w] == c0;
                assert(all[w] == f(c0));
                assert(all.contains(f(c0)));
                assert(p0.push(x) + c0 =~= p0 + f(c0));
            }
            if ra && !rb {
                let c0 = choose|c: Seq<usize>| #[trigger] b.contains(c) && !self.edges().contains((p0 + c).to_set());
                let w = choose|w: int| 0 <= w < b.len() && b[w] == c0;
                assert(all[a.len() + w] == c0);
                assert(all.contains(c0));
            }
        }
        ra && rb
    }

    /// Whether every subsequence of `v` of the size of the edges is an edge.
    pub fn is_clique(&self, v: &Vec<usize>) -> (r: bool)
        ensures
            r == clique_spec(self.edges(), self.rank_spec(), v@),
    {
        let mut prefix: Vec<usize> = Vec::new();
        let r = self.all_in(v, 0, self.rank, &mut prefix);
        proof {
            assert(v@.skip(0) =~= v@);
            assert forall|c: Seq<usize>| #![trigger combos(v@, self.rank as nat).contains(c)] combos(v@, self.rank as nat).contains(c) implies Seq::<usize>::empty() + c == c by {
                assert(Seq::<usize>::empty() + c =~= c);
            }
        }
        r
    }
}

/// `b` is `p` followed by a subsequence of length `k` of `v` from position
/// `start` on, and its nodes form a clique.
pub open spec fn found_clique(g: HyperGraph, v: Seq<usize>, start: int, k: nat, p: Seq<usize>, b: Seq<usize>) -> bool {
    exists|c: Seq<usize>| #[trigger] combos(v.skip(start), k).contains(c) && b == p + c && clique_spec(g.edges(), g.rank_spec(), b)
}


/// Every clique of `g` on distinct listed nodes with `i` nodes lies among
/// `nodes`.
pub open spec fn pruned(g: HyperGraph, nodes: Seq<usize>, i: nat) -> bool {
    forall|d: Seq<usize>|
        d.no_duplicates() && d.to_set().subset_of(g.node_list().to_set()) && d.len() == i && #[trigger] clique_spec(
            g.edges(),
            g.rank_spec(),
            d,
        ) ==> d.to_set().subset_of(nodes.to_set())
}

/// When no subsequence of length `i` of `nodes` is a clique, no clique has
/// `i` nodes or more.
proof fn lemma_no_clique_beyond(g: HyperGraph, nodes: Seq<usize>, i: nat)
    requires
        nodes.no_duplicates(),
        pruned(g, nodes, i),
        forall|c: Seq<usize>| #[trigger] combos(nodes, i).contains(c) ==> !clique_spec(g.edges(), g.rank_spec(), c),
    ensures
        forall|d: Seq<usize>|
            d.no_duplicates() && d.to_set().subset_of(g.node_list().to_set()) && #[trigger] clique_spec(g.edges(), g.rank_spec(), d)
                ==> d.len() < i,
{
    assert forall|d: Seq<usize>|
        d.no_duplicates() && d.to_set().subset_of(g.node_list().to_set()) && #[trigger] clique_spec(g.edges(), g.rank_spec(), d)
        implies d.len() < i by {
        if d.len() >= i {
            let e = d.subrange(0, i as int);
            lemma_clique_prefix(g.edges(), g.rank_spec(), d, i as int);
            assert(e.no_duplicates());
            assert(e.to_set().subset_of(g.node_list().to_set())) by {
                assert forall|y: usize| e.to_set().contains(y) implies g.node_list().to_set().contains(y) by {
                    let q = choose|q: int| 0 <= q < e.len() && e[q] == y;
                    assert(d[q] == y);
                    assert(d.to_set().contains(y));
                }
            }
            assert(e.to_set().subset_of(nodes.to_set()));
            lemma_combos_complete(nodes, e);
            let c = choose|c: Seq<usize>| #[trigger] combos(nodes, e.len()).contains(c) && c.to_set() == e.to_set();
            lemma_combos_distinct(nodes, i);
            lemma_clique_same_set(g.edges(), g.rank_spec(), e, c);
        }
    }
}

/// The nodes of the cliques with `i` nodes hold every clique with one node
/// more.
proof fn lemma_next_level(g: HyperGraph, nodes: Seq<usize>, next: Seq<usize>, i: nat)
    requires
        i >= 1,
        nodes.no_duplicates(),
        pruned(g, nodes, i),
        forall|c: Seq<usize>| #[trigger] combos(nodes, i).contains(c) && clique_spec(g.edges(), g.rank_spec(), c)
            ==> c.to_set().subset_of(next.to_set()),
    ensures
        pruned(g, next, i + 1),
{
    assert forall|d: Seq<usize>|
        d.no_duplicates() && d.to_set().subset_of(g.node_list().to_set()) && d.len() == i + 1 && #[trigger] clique_spec(
            g.edges(),
            g.rank_spec(),
            d,
        ) implies d.to_set().subset_of(next.to_set()) by {
        assert forall|x: usize| d.to_set().contains(x) implies next.to_set().contains(x) by {
            let j: int = if d[0] == x { 1 } else { 0 };
            let e = d.remove(j);
            lemma_clique_remove(g.edges(), g.rank_spec(), d, j);
            assert forall|p: int, q: int| 0 <= p < q < e.len() implies e[p] != e[q] by {
                let pp = if p < j { p } else { p + 1 };
                let qq = if q < j { q } else { q + 1 };
                assert(e[p] == d[pp] && e[q] == d[qq]);
            }
            assert(e.to_set().subset_of(g.node_list().to_set())) by {
                assert forall|y: usize| e.to_set().contains(y) implies g.node_list().to_set().contains(y) by {
                    let p = choose|p: int| 0 <= p < e.len() && e[p] == y;
                    let pp = if p < j { p } else { p + 1 };
                    assert(d[pp] == y);
                    assert(d.to_set().contains(y));
                }
            }
            assert(e.to_set().contains(x)) by {
                let p = choose|p: int| 0 <= p < d.len() && d[p] == x;
                assert(p != j);
                let pp = if p < j { p } else { p - 1 };
                assert(e[pp] == x);
            }
            assert(e.to_set().subset_of(nodes.to_set()));
            lemma_combos_complete(nodes, e);
            let c = choose|c: Seq<usize>| #[trigger] combos(nodes, e.len()).contains(c) && c.to_set() == e.to_set();
            lemma_combos_distinct(nodes, i);
            lemma_clique_same_set(g.edges(), g.rank_spec(), e, c);
        }
    }
}

impl HyperGraph {
    /// Visits the subsequences `c` of length `k` of `nodes` from position
    /// `start` on, in order; when the nodes of `prefix` with those of `c`
    /// form a clique, they become `best` and are added to `next`.
    fn scan(&self, nodes: &Vec<usize>, start: usize, k: usize, prefix: &mut Vec<usize>, next: &mut Vec<usize>, best: &mut Vec<usize>)
        requires
            start <= nodes@.len(),
            old(next)@.no_duplicates(),
        ensures
            final(prefix)@ == old(prefix)@,
            final(next)@.no_duplicates(),
            final(next)@.to_set().subset_of(old(next)@.to_set().union(old(prefix)@.to_set()).union(nodes@.to_set())),
            old(next)@.to_set().subset_of(final(next)@.to_set()),
            forall|c: Seq<usize>| #[trigger] combos(nodes@.skip(start as int), k as nat).contains(c) && clique_spec(
                self.edges(),
                self.rank_spec(),
                old(prefix)@ + c,
            ) ==> (old(prefix)@ + c).to_set().subset_of(final(next)@.to_set()),
            final(best)@ == old(best)@ || found_clique(*self, nodes@, start as int, k as nat, old(prefix)@, final(best)@),
            (exists|c: Seq<usize>| #[trigger] combos(nodes@.skip(start as int), k as nat).contains(c) && clique_spec(
                self.edges(),
                self.rank_spec(),
                old(prefix)@ + c,
            )) ==> found_clique(*self, nodes@, start as int, k as nat, old(prefix)@, final(best)@),
        decreases nodes@.len() - start,
    {
        let ghost p0 = prefix@;
        let ghost n0 = next@;
        let ghost b0 = best@;
        if k == 0 {
            proof {
                assert(combos(nodes@.skip(start as int), 0) == seq![Seq::<usize>::empty()]);
                assert(p0 + Seq::<usize>::empty() =~= p0);
                assert(combos(nodes@.skip(start as int), 0).contains(Seq::<usize>::empty())) by {
                    assert(combos(nodes@.skip(start as int), 0)[0] == Seq::<usize>::empty());
                }
                assert forall|c: Seq<usize>| #[trigger] combos(nodes@.skip(start as int), 0).contains(c) implies c == Seq::<usize>::empty() by {
                    let w = choose|w: int| 0 <= w < 1 && combos(nodes@.skip(start as int), 0)[w] == c;
                }
                assert forall|c: Seq<usize>| #[trigger] combos(nodes@.skip(start as int), 0).contains(c) implies p0 + c == p0 by {
                    assert(p0 + c =~= p0);
                }
            }
            if self.is_clique(prefix) {
                let mut i: usize = 0;
                while i < prefix.len()
                    invariant
                        i <= prefix@.len(),
                        next@.no_duplicates(),
                        next@.to_set() == n0.to_set().union(prefix@.subrange(0, i as int).to_set()),
                    decreases prefix@.len() - i,
                {
                    add_node(next, prefix[i]);
                    proof {
                        prefix@.subrange(0, i as int).lemma_push_to_set_commute(prefix@[i as int]);
                        assert(prefix@.subrange(0, i + 1) =~= prefix@.subrange(0, i as int).push(prefix@[i as int]));
                    }
                    i += 1;
                }
                assert(prefix@.subrange(0, prefix@.len() as int) =~= prefix@);
                *best = copy_nodes(prefix);
                proof {
                    assert(best@ == p0 + Seq::<usize>::empty());
                }
            }
            return;
        }
        if start == nodes.len() {
            proof {
                assert(nodes@.skip(start as int) =~= Seq::<usize>::empty());
            }
            return;
        }
        let x = nodes[start];
        let ghost f = |c: Seq<usize>| seq![x] + c;
        let ghost a = combos(nodes@.skip(start + 1), (k - 1) as nat);
        let ghost b = combos(nodes@.skip(start + 1), k as nat);
        proof {
            lemma_combos_step(nodes@, start as int, k as nat);
        }
        let ghost all = a.map_values(f) + b;
        prefix.push(x);
        let ghost p1 = prefix@;
        self.scan(nodes, start + 1, k - 1, prefix, next, best);
        let ghost b1 = best@;
        let ghost n1 = next@;
        prefix.pop();
        assert(prefix@ =~= p0);
        self.scan(nodes, start + 1, k, prefix, next, best);
        proof {
            assert(combos(nodes@.skip(start as int), k as nat) == all);
            assert(p0.to_set().union(nodes@.to_set()).contains(x)) by {
                assert(nodes@.to_set().contains(nodes@[start as int]));
            }
            assert(next@.to_set().subset_of(n0.to_set().union(p0.to_set()).union(nodes@.to_set()))) by {
                assert forall|y: usize| next@.to_set().contains(y) implies n0.to_set().union(p0.to_set()).union(nodes@.to_set()).contains(y) by {
                    if n1.to_set().contains(y) {
                        if p1.to_set().contains(y) {
                            let q = choose|q: int| 0 <= q < p1.len() && p1[q] == y;
                            if q < p0.len() {
                                assert(p0[q] == y);
                            }
                        }
                    }
                }
            }
            // what the first visit found, seen from the whole
            if found_clique(*self, nodes@, start as int + 1, (k - 1) as nat, p1, b1) {
                let c1 = choose|c: Seq<usize>| #[trigger] combos(nodes@.skip(start + 1), (k - 1) as nat).contains(c) && b1 == p1 + c
                    && clique_spec(self.edges(), self.rank_spec(), b1);
                let w = choose|w: int| 0 <= w < a.len() && a[w] == c1;
                assert(all[w] == f(c1));
                assert(all.contains(f(c1)));
                assert(p1 + c1 =~= p0 + f(c1));
                assert(found_clique(*self, nodes@, start as int, k as nat, p0, b1));
            }
            if found_clique(*self, nodes@, start as int + 1, k as nat, p0, best@) {
                let c2 = choose|c: Seq<usize>| #[trigger] combos(nodes@.skip(start + 1), k as nat).contains(c) && best@ == p0 + c
                    && clique_spec(self.edges(), self.rank_spec(), best@);
                let w = choose|w: int| 0 <= w < b.len() && b[w] == c2;
                assert(all[a.len() + w] == c2);
                assert(all.contains(c2));
                assert(found_clique(*self, nodes@, start as int, k as nat, p0, best@));
            }
            assert forall|c: Seq<usize>| #[trigger] all.contains(c) && clique_spec(self.edges(), self.rank_spec(), p0 + c)
                implies (p0 + c).to_set().subset_of(next@.to_set()) by {
                let w = choose|w: int| 0 <= w < all.len() && all[w] == c;
                if w < a.len() {
                    assert(a.contains(a[w]));
                    assert(p1 + a[w] =~= p0 + c);
                } else {
                    assert(b.contains(b[w - a.len()]));
                }
            }
            if exists|c: Seq<usize>| #[trigger] all.contains(c) && clique_spec(self.edges(), self.rank_spec(), p0 + c) {
                let c = choose|c: Seq<usize>| #[trigger] all.contains(c) && clique_spec(self.edges(), self.rank_spec(), p0 + c);
                let w = choose|w: int| 0 <= w < all.len() && all[w] == c;
                if w < a.len() {
                    assert(a.contains(a[w]));
                    assert(p1 + a[w] =~= p0 + c);
                    assert(found_clique(*self, nodes@, start as int + 1, (k - 1) as nat, p1, b1));
                } else {
                    assert(b.contains(b[w - a.len()]));
                    assert(found_clique(*self, nodes@, start as int + 1, k as nat, p0, best@));
                }
            }
        }
    }

    /// A largest set of nodes whose subsets of the size of the edges are all
    /// edges, searched size after size from the size of the edges on, each
    /// time among the nodes of the cliques found at the size before.
    pub fn max_clique(&self) -> (r: Vec<usize>)
        ensures
            r@.len() > 0 ==> clique_spec(self.edges(), self.rank_spec(), r@) && r@.len() >= self.rank_spec()
                && r@.to_set().subset_of(self.node_list().to_set()),
            r@.len() == 0 && 0 < self.rank_spec() <= self.node_bound() ==> forall|c: Seq<usize>|
                #[trigger] combos(self.node_list(), self.rank_spec()).contains(c) ==> !clique_spec(self.edges(), self.rank_spec(), c),
            self.rank_spec() > 0 ==> forall|c: Seq<usize>|
                c.no_duplicates() && c.to_set().subset_of(self.node_list().to_set()) && c.len() >= self.rank_spec()
                    && #[trigger] clique_spec(self.edges(), self.rank_spec(), c) ==> c.len() <= r@.len(),
    {
        proof {
            use_type_invariant(self);
        }
        let mut nodes = copy_nodes(&self.keys);
        let mut best: Vec<usize> = Vec::new();
        if self.rank > self.nodes {
            proof {
                assert forall|c: Seq<usize>|
                    c.no_duplicates() && c.to_set().subset_of(self.node_list().to_set()) && c.len() >= self.rank_spec()
                        && #[trigger] clique_spec(self.edges(), self.rank_spec(), c) implies c.len() <= best@.len() by {
                    assert forall|q: int| 0 <= q < c.len() implies c[q] < self.nodes as nat by {
                        assert(c.to_set().contains(c[q]));
                        let w = choose|w: int| 0 <= w < self.keys@.len() && self.keys@[w] == c[q];
                    }
                    lemma_distinct_bounded(c, self.nodes as nat);
                }
            }
            return best;
        }
        let mut i = self.rank;
        loop
            invariant_except_break
                self.rank <= i <= self.nodes,
                nodes@.to_set().subset_of(self.keys@.to_set()),
                nodes@.no_duplicates(),
                self.rank > 0 ==> pruned(*self, nodes@, i as nat),
                i == self.rank ==> best@.len() == 0 && nodes@ == self.keys@,
                i > self.rank ==> best@.len() == i - 1 && (self.rank > 0 ==> best@.len() > 0),
            invariant
                self.keys@.no_duplicates(),
                forall|q: int| 0 <= q < self.keys@.len() ==> self.keys@[q] < self.nodes,
                best@.len() > 0 ==> clique_spec(self.edges(), self.rank_spec(), best@) && best@.len() >= self.rank
                    && best@.to_set().subset_of(self.keys@.to_set()),
            ensures
                best@.len() > 0 ==> clique_spec(self.edges(), self.rank_spec(), best@) && best@.len() >= self.rank
                    && best@.to_set().subset_of(self.keys@.to_set()),
                best@.len() == 0 && 0 < self.rank ==> forall|c: Seq<usize>|
                    #[trigger] combos(self.keys@, self.rank as nat).contains(c) ==> !clique_spec(self.edges(), self.rank_spec(), c),
                self.rank > 0 ==> forall|c: Seq<usize>|
                    c.no_duplicates() && c.to_set().subset_of(self.node_list().to_set()) && c.len() >= self.rank_spec()
                        && #[trigger] clique_spec(self.edges(), self.rank_spec(), c) ==> c.len() <= best@.len(),
            decreases self.nodes - i,
        {
            let ghost b0 = best@;
            let ghost nv = nodes@;
            let mut next: Vec<usize> = Vec::new();
            let mut prefix: Vec<usize> = Vec::new();
            self.scan(&nodes, 0, i, &mut prefix, &mut next, &mut best);
            proof {
                assert(nv.skip(0) =~= nv);
                lemma_combos(nv, i as nat);
                assert forall|c: Seq<usize>| #[trigger] combos(nv, i as nat).contains(c) implies Seq::<usize>::empty() + c == c by {
                    assert(Seq::<usize>::empty() + c =~= c);
                }
                if best@ != b0 {
                    let c = choose|c: Seq<usize>| #[trigger] combos(nv.skip(0), i as nat).contains(c) && best@ == Seq::<usize>::empty() + c
                        && clique_spec(self.edges(), self.rank_spec(), best@);
                    assert(best@ =~= c);
                    assert(best@.len() == i);
                    assert(best@.to_set().subset_of(self.keys@.to_set()));
                }
                if best@.len() != i {
                    assert forall|c: Seq<usize>| #[trigger] combos(nv, i as nat).contains(c) implies !clique_spec(self.edges(), self.rank_spec(), c) by {
                        if clique_spec(self.edges(), self.rank_spec(), c) {
                            assert(combos(nv.skip(0), i as nat).contains(c));
                            let c2 = choose|c2: Seq<usize>| #[trigger] combos(nv.skip(0), i as nat).contains(c2) && best@ == Seq::<usize>::empty() + c2
                                && clique_spec(self.edges(), self.rank_spec(), best@);
                            assert(best@ =~= c2);
                        }
                    }
                    if self.rank > 0 {
                        lemma_no_clique_beyond(*self, nv, i as nat);
                    }
                }
            }
            if best.len() != i {
                break;
            }
            proof {
                assert(next@.to_set().subset_of(self.keys@.to_set())) by {
                    assert(Seq::<usize>::empty().to_set() =~= Set::<usize>::empty());
                }
                if self.rank > 0 {
                    lemma_next_level(*self, nv, next@, i as nat);
                }
            }
            nodes = next;
            if i == self.nodes {
                proof {
                    assert forall|c: Seq<usize>|
                        c.no_duplicates() && c.to_set().subset_of(self.node_list().to_set()) && c.len() >= self.rank_spec()
                            && #[trigger] clique_spec(self.edges(), self.rank_spec(), c) implies c.len() <= best@.len() by {
                        assert forall|q: int| 0 <= q < c.len() implies c[q] < self.nodes as nat by {
                            assert(c.to_set().contains(c[q]));
                            let w = choose|w: int| 0 <= w < self.keys@.len() && self.keys@[w] == c[q];
                        }
                        lemma_distinct_bounded(c, self.nodes as nat);
                    }
                }
                break;
            }
            i += 1;
        }
        best
    }
}

} // verus!
