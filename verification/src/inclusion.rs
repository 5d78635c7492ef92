use vstd::prelude::*;
use contest_algorithms::graph::flow::FlowGraph;

use crate::flow::{dinic_result, feasible_flow, flow_add_edge, flow_dinic, flow_edges, flow_new, flow_vertices, net_flow};
use crate::group::{strictly_sorted, Group, GroupType, Label};
use crate::line::{degree_without_star_spec, has_star_spec, parts_wf, Line, PartV, MAX_PARTS};

verus! {

/// An edge of a flow network: endpoints, capacity, reverse capacity, cost.
pub type Edge = (usize, usize, i64, i64, i64);

/// The number of labels that a configuration must provide: those of its
/// parts without a star, plus, when it has a star, enough for any star.
pub open spec fn required_flow(a: Seq<PartV>, b: Seq<PartV>) -> int {
    if has_star_spec(a) {
        (degree_without_star_spec(a) + degree_without_star_spec(b) + 1) as int
    } else {
        degree_without_star_spec(a) as int
    }
}

/// The capacity of the edge of a part: its exponent, or for a starred part
/// what the other parts leave of the required flow.
pub open spec fn part_capacity(p: PartV, required: int, own: int) -> int {
    match p.0 {
        GroupType::Star => required - own,
        GroupType::Many(n) => n as int,
    }
}

/// The edges from the source to the first `k` parts of `a`.
pub open spec fn source_edges(a: Seq<PartV>, required: int, own: int, k: int) -> Seq<Edge>
    decreases k,
{
    if k <= 0 {
        Seq::empty()
    } else {
        source_edges(a, required, own, k - 1).push((0usize, k as usize, part_capacity(a[k - 1], required, own) as i64, 0i64, 0i64))
    }
}

/// The edges from the first `k` parts of `b` to the sink `n - 1`.
pub open spec fn sink_edges(b: Seq<PartV>, d1: int, n: int, required: int, own: int, k: int) -> Seq<Edge>
    decreases k,
{
    if k <= 0 {
        Seq::empty()
    } else {
        sink_edges(b, d1, n, required, own, k - 1).push(((d1 + k) as usize, (n - 1) as usize, part_capacity(b[k - 1], required, own) as i64, 0i64, 0i64))
    }
}

/// The pairs `(i, j)`, `j < k`, of a part `i` of `a` and a part `j` of `b`
/// that may be matched.
pub open spec fn row_pairs(i: int, row: Seq<bool>, k: int) -> Seq<(usize, usize)>
    decreases k,
{
    if k <= 0 {
        Seq::empty()
    } else if row[k - 1] {
        row_pairs(i, row, k - 1).push((i as usize, (k - 1) as usize))
    } else {
        row_pairs(i, row, k - 1)
    }
}

/// The pairs that may be matched, for the first `k` parts of `a`, row by row.
pub open spec fn match_pairs(table: Seq<Seq<bool>>, k: int) -> Seq<(usize, usize)>
    decreases k,
{
    if k <= 0 {
        Seq::empty()
    } else {
        match_pairs(table, k - 1) + row_pairs(k - 1, table[k - 1], table[k - 1].len() as int)
    }
}

/// The edge of the network for a pair of parts.
pub open spec fn pair_edge(p: (usize, usize), d1: int, required: int) -> Edge {
    ((1 + p.0) as usize, (1 + d1 + p.1) as usize, required as i64, 0i64, 0i64)
}

/// The flow network that decides whether `a` includes `b`: the source feeds
/// each part of `a`, each part of `b` feeds the sink, and a part of `a` feeds
/// a part of `b` where the table allows it.
pub open spec fn network(a: Seq<PartV>, b: Seq<PartV>, table: Seq<Seq<bool>>) -> Seq<Edge> {
    let d1 = a.len() as int;
    let d2 = b.len() as int;
    let n = 2 + d1 + d2;
    let req = required_flow(a, b);
    source_edges(a, req, degree_without_star_spec(a) as int, d1)
        + sink_edges(b, d1, n, req, degree_without_star_spec(b) as int, d2)
        + match_pairs(table, d1).map_values(|p: (usize, usize)| pair_edge(p, d1, req))
}

/// Some part of `a` with a non-zero exponent has no part of `b` to match.
pub open spec fn has_dead_part(a: Seq<PartV>, table: Seq<Seq<bool>>) -> bool {
    exists|i: int| 0 <= i < a.len() && (#[trigger] a[i]).0 != GroupType::Many(0)
        && forall|j: int| 0 <= j < table[i].len() ==> !table[i][j]
}

/// The matched pairs with a positive flow, among the first `k` pairs, with
/// their flows; the flow of pair `m` is on edge `2 * (base + m)`.
pub open spec fn positive_pairs(pairs: Seq<(usize, usize)>, flows: Seq<i64>, base: int, k: int) -> Seq<((usize, usize), usize)>
    decreases k,
{
    if k <= 0 {
        Seq::empty()
    } else if flows[2 * (base + k - 1)] > 0 {
        positive_pairs(pairs, flows, base, k - 1).push((pairs[k - 1], flows[2 * (base + k - 1)] as usize))
    } else {
        positive_pairs(pairs, flows, base, k - 1)
    }
}

/// How the parts of `b` are matched into the parts of `a`, if all of `b` can be
/// covered: the pairs of parts, with the number of labels matched.
pub open spec fn matching_spec(a: Seq<PartV>, b: Seq<PartV>, table: Seq<Seq<bool>>) -> Option<Seq<((usize, usize), usize)>> {
    if has_dead_part(a, table) {
        None
    } else {
        let n = 2 + a.len() + b.len();
        let res = dinic_result(n as nat, network(a, b, table), 0, (n - 1) as usize);
        if res.0 == required_flow(a, b) {
            Some(positive_pairs(match_pairs(table, a.len() as int), res.1, (a.len() + b.len()) as int, match_pairs(table, a.len() as int).len() as int))
        } else {
            None
        }
    }
}

/// The maximum flow of the network of `a`, `b` and `table` is exactly the
/// required flow: some flow reaches it, and none goes beyond.
pub open spec fn flow_reaches(a: Seq<PartV>, b: Seq<PartV>, table: Seq<Seq<bool>>) -> bool {
    let n = 2 + a.len() + b.len();
    let net = network(a, b, table);
    &&& exists|f: Seq<i64>| #[trigger] feasible_flow(net, f, n as nat, 0, (n - 1) as usize)
        && net_flow(net, f, 0) == required_flow(a, b)
    &&& forall|f: Seq<i64>| #[trigger] feasible_flow(net, f, n as nat, 0, (n - 1) as usize)
        ==> net_flow(net, f, 0) <= required_flow(a, b)
}

/// The rows of a table of booleans.
pub open spec fn table_view(t: Seq<Vec<bool>>) -> Seq<Seq<bool>> {
    t.map_values(|r: Vec<bool>| r@)
}

/// A starred part of `b` can be given its edge: when `a` has no star, `b`
/// provides no more labels without its star than `a` requires.
pub open spec fn star_capacity_fits(a: Seq<PartV>, b: Seq<PartV>) -> bool {
    has_star_spec(b) && !has_star_spec(a) ==> degree_without_star_spec(b) <= degree_without_star_spec(a)
}

/// The table has one row per part of `a` and one column per part of `b`.
pub open spec fn table_fits(table: Seq<Seq<bool>>, a: Seq<PartV>, b: Seq<PartV>) -> bool {
    &&& table.len() == a.len()
    &&& forall|i: int| 0 <= i < table.len() ==> (#[trigger] table[i]).len() == b.len()
}

proof fn lemma_source_len(a: Seq<PartV>, req: int, own: int, k: int)
    requires
        k >= 0,
    ensures
        source_edges(a, req, own, k).len() == k,
    decreases k,
{
    if k > 0 {
        lemma_source_len(a, req, own, k - 1);
    }
}

proof fn lemma_sink_len(b: Seq<PartV>, d1: int, n: int, req: int, own: int, k: int)
    requires
        k >= 0,
    ensures
        sink_edges(b, d1, n, req, own, k).len() == k,
    decreases k,
{
    if k > 0 {
        lemma_sink_len(b, d1, n, req, own, k - 1);
    }
}

proof fn lemma_row_pairs_len(i: int, row: Seq<bool>, k: int)
    requires
        0 <= k <= row.len(),
    ensures
        row_pairs(i, row, k).len() <= k,
    decreases k,
{
    if k > 0 {
        lemma_row_pairs_len(i, row, k - 1);
    }
}

proof fn lemma_match_pairs_len(table: Seq<Seq<bool>>, k: int, w: int)
    requires
        0 <= k <= table.len(),
        forall|i: int| 0 <= i < table.len() ==> (#[trigger] table[i]).len() == w,
        w >= 0,
    ensures
        match_pairs(table, k).len() <= k * w,
    decreases k,
{
    if k > 0 {
        lemma_match_pairs_len(table, k - 1, w);
        lemma_row_pairs_len(k - 1, table[k - 1], w);
        assert((k - 1) * w + w == k * w) by (nonlinear_arith);
    }
}

/// The capacities of an edge fit the flow algorithm's bounds.
pub open spec fn edge_fits(e: Edge) -> bool {
    0 <= e.2 < 0x1_0000_0000 && 0 <= e.3 < 0x1_0000_0000
}

proof fn lemma_source_fits(a: Seq<PartV>, req: int, own: int, k: int)
    requires
        0 <= k <= a.len(),
        forall|m: int| 0 <= m < a.len() ==> 0 <= #[trigger] part_capacity(a[m], req, own) < 0x1_0000_0000,
    ensures
        forall|m: int| 0 <= m < source_edges(a, req, own, k).len() ==> edge_fits(#[trigger] source_edges(a, req, own, k)[m]),
    decreases k,
{
    if k > 0 {
        lemma_source_fits(a, req, own, k - 1);
        let c = part_capacity(a[k - 1], req, own);
        assert(0 <= c < 0x1_0000_0000);
        assert(c as i64 == c);
        let prev = source_edges(a, req, own, k - 1);
        let e = (0usize, k as usize, c as i64, 0i64, 0i64);
        assert(edge_fits(e));
        assert forall|m: int| 0 <= m < prev.push(e).len() implies edge_fits(#[trigger] prev.push(e)[m]) by {
            if m < prev.len() {
                assert(prev.push(e)[m] == prev[m]);
            }
        }
    }
}

proof fn lemma_sink_fits(b: Seq<PartV>, d1: int, n: int, req: int, own: int, k: int)
    requires
        0 <= k <= b.len(),
        forall|m: int| 0 <= m < b.len() ==> 0 <= #[trigger] part_capacity(b[m], req, own) < 0x1_0000_0000,
    ensures
        forall|m: int| 0 <= m < sink_edges(b, d1, n, req, own, k).len() ==> edge_fits(#[trigger] sink_edges(b, d1, n, req, own, k)[m]),
    decreases k,
{
    if k > 0 {
        lemma_sink_fits(b, d1, n, req, own, k - 1);
        let c = part_capacity(b[k - 1], req, own);
        assert(0 <= c < 0x1_0000_0000);
        assert(c as i64 == c);
        let prev = sink_edges(b, d1, n, req, own, k - 1);
        let e = ((d1 + k) as usize, (n - 1) as usize, c as i64, 0i64, 0i64);
        assert(edge_fits(e));
        assert forall|m: int| 0 <= m < prev.push(e).len() implies edge_fits(#[trigger] prev.push(e)[m]) by {
            if m < prev.len() {
                assert(prev.push(e)[m] == prev[m]);
            }
        }
    }
}

proof fn lemma_network_fits(a: Seq<PartV>, b: Seq<PartV>, table: Seq<Seq<bool>>)
    requires
        parts_wf(a),
        parts_wf(b),
        star_capacity_fits(a, b),
    ensures
        forall|m: int| 0 <= m < network(a, b, table).len() ==> edge_fits(#[trigger] network(a, b, table)[m]),
{
    let d1 = a.len() as int;
    let d2 = b.len() as int;
    let n = 2 + d1 + d2;
    let req = required_flow(a, b);
    let ta = degree_without_star_spec(a) as int;
    let tb = degree_without_star_spec(b) as int;
    assert forall|m: int| 0 <= m < a.len() implies 0 <= #[trigger] part_capacity(a[m], req, ta) < 0x1_0000_0000 by {
        if a[m].0 == GroupType::Star {
            assert(has_star_spec(a));
        }
    }
    assert forall|m: int| 0 <= m < b.len() implies 0 <= #[trigger] part_capacity(b[m], req, tb) < 0x1_0000_0000 by {
        if b[m].0 == GroupType::Star {
            assert(has_star_spec(b));
        }
    }
    lemma_source_fits(a, req, ta, d1);
    lemma_sink_fits(b, d1, n, req, tb, d2);
    let s1 = source_edges(a, req, ta, d1);
    let s2 = sink_edges(b, d1, n, req, tb, d2);
    let s3 = match_pairs(table, d1).map_values(|p: (usize, usize)| pair_edge(p, d1, req));
    assert(0 <= req <= 511);
    assert(req as i64 == req);
    assert forall|m: int| 0 <= m < s3.len() implies edge_fits(#[trigger] s3[m]) by {}
    assert(network(a, b, table) == s1 + s2 + s3);
}

impl Line {
    /// Matches the parts of `other` into the parts of `self` with a maximum
    /// flow: the source feeds each part of `self` with its exponent, each part
    /// of `other` feeds the sink with its exponent, and part `i` of `self`
    /// feeds part `j` of `other` where `table[i][j]`. A starred part stands for
    /// as many labels as needed. The result lists the pairs that carry labels.
    pub fn matches_with(&self, other: &Line, table: &Vec<Vec<bool>>) -> (r: Option<Vec<((usize, usize), usize)>>)
        requires
            self.wf(),
            other.wf(),
            table_fits(table_view(table@), self@, other@),
            star_capacity_fits(self@, other@),
        ensures
            r is Some <==> matching_spec(self@, other@, table_view(table@)) is Some,
            r matches Some(v) ==> v@ == matching_spec(self@, other@, table_view(table@))->Some_0,
            r is Some <==> !has_dead_part(self@, table_view(table@)) && flow_reaches(self@, other@, table_view(table@)),
    {
        let ghost a = self@;
        let ghost b = other@;
        let ghost tv = table_view(table@);
        let d1 = self.parts.len();
        let d2 = other.parts.len();
        let t1 = self.degree_without_star();
        let t2 = other.degree_without_star();
        let maxflow = if self.has_star() { t1 + t2 + 1 } else { t1 };
        let n = 2 + d1 + d2;
        assert(d1 * d2 <= MAX_PARTS * MAX_PARTS) by (nonlinear_arith)
            requires d1 <= MAX_PARTS, d2 <= MAX_PARTS;
        let mut g = flow_new(n, d1 * d2);
        let ghost req = required_flow(a, b);
        let mut i: usize = 0;
        while i < d1
            invariant
                a == self@, b == other@,
                d1 == a.len(), d2 == b.len(), n == 2 + d1 + d2,
                self.wf(), other.wf(),
                t1 == degree_without_star_spec(a), t2 == degree_without_star_spec(b),
                maxflow == req, req == required_flow(a, b),
                i <= d1,
                flow_vertices(g) == n,
                flow_edges(g) == source_edges(a, req, t1 as int, i as int),
            decreases d1 - i,
        {
            let value = match self.parts[i].gtype {
                GroupType::Star => maxflow - t1,
                GroupType::Many(x) => x as usize,
            };
            flow_add_edge(&mut g, 0, 1 + i, value as i64, 0, 0);
            i += 1;
        }
        let ghost src = flow_edges(g);
        let mut j: usize = 0;
        while j < d2
            invariant
                a == self@, b == other@,
                d1 == a.len(), d2 == b.len(), n == 2 + d1 + d2,
                self.wf(), other.wf(),
                star_capacity_fits(a, b),
                t1 == degree_without_star_spec(a), t2 == degree_without_star_spec(b),
                maxflow == req, req == required_flow(a, b),
                j <= d2,
                flow_vertices(g) == n,
                src == source_edges(a, req, t1 as int, d1 as int),
                flow_edges(g) == src + sink_edges(b, d1 as int, n as int, req, t2 as int, j as int),
            decreases d2 - j,
        {
            let value = match other.parts[j].gtype {
                GroupType::Star => {
                    proof {
                        assert(has_star_spec(b)) by {
                            assert(b[j as int].0 == GroupType::Star);
                        }
                    }
                    maxflow - t2
                },
                GroupType::Many(x) => x as usize,
            };
            let ghost before = flow_edges(g);
            flow_add_edge(&mut g, 1 + d1 + j, n - 1, value as i64, 0, 0);
            assert(flow_edges(g) =~= src + sink_edges(b, d1 as int, n as int, req, t2 as int, j + 1));
            j += 1;
        }
        let ghost snk = sink_edges(b, d1 as int, n as int, req, t2 as int, d2 as int);
        let mut pairs: Vec<(usize, usize)> = Vec::new();
        let mut i: usize = 0;
        proof {
            assert(match_pairs(tv, 0) =~= Seq::<(usize, usize)>::empty());
            assert(flow_edges(g) =~= src + snk + match_pairs(tv, 0).map_values(|p: (usize, usize)| pair_edge(p, d1 as int, req)));
        }
        while i < d1
            invariant
                a == self@, b == other@, tv == table_view(table@),
                table_fits(tv, a, b),
                self.wf(), other.wf(), star_capacity_fits(a, b),
                d1 == a.len(), d2 == b.len(), n == 2 + d1 + d2,
                d1 <= MAX_PARTS, d2 <= MAX_PARTS,
                maxflow == req, req == required_flow(a, b),
                i <= d1,
                flow_vertices(g) == n,
                pairs@ == match_pairs(tv, i as int),
                flow_edges(g) == src + snk + match_pairs(tv, i as int).map_values(|p: (usize, usize)| pair_edge(p, d1 as int, req)),
                forall|q: int| 0 <= q < i ==> !((#[trigger] a[q]).0 != GroupType::Many(0) && forall|k: int| 0 <= k < tv[q].len() ==> !tv[q][k]),
            decreases d1 - i,
        {
            let mut at_least_one = false;
            let mut j: usize = 0;
            let ghost base = match_pairs(tv, i as int);
            assert(table@[i as int]@ == tv[i as int]);
            while j < d2
                invariant
                    a == self@, b == other@, tv == table_view(table@),
                    table_fits(tv, a, b),
                    self.wf(), other.wf(), star_capacity_fits(a, b),
                    d1 == a.len(), d2 == b.len(), n == 2 + d1 + d2,
                    d1 <= MAX_PARTS, d2 <= MAX_PARTS,
                    maxflow == req, req == required_flow(a, b),
                    i < d1, j <= d2,
                    table@[i as int]@ == tv[i as int],
                    flow_vertices(g) == n,
                    base == match_pairs(tv, i as int),
                    pairs@ == base + row_pairs(i as int, tv[i as int], j as int),
                    flow_edges(g) == src + snk + (base + row_pairs(i as int, tv[i as int], j as int)).map_values(|p: (usize, usize)| pair_edge(p, d1 as int, req)),
                    at_least_one <==> exists|k: int| 0 <= k < j && tv[i as int][k],
                decreases d2 - j,
            {
                if table[i][j] {
                    at_least_one = true;
                    flow_add_edge(&mut g, 1 + i, 1 + d1 + j, maxflow as i64, 0, 0);
                    pairs.push((i, j));
                    proof {
                        let rp = row_pairs(i as int, tv[i as int], j as int);
                        assert(row_pairs(i as int, tv[i as int], j + 1) == rp.push((i, j)));
                        assert((base + rp.push((i, j))).map_values(|p: (usize, usize)| pair_edge(p, d1 as int, req))
                            =~= (base + rp).map_values(|p: (usize, usize)| pair_edge(p, d1 as int, req)).push(pair_edge((i, j), d1 as int, req)));
                        assert(base + rp.push((i, j)) =~= (base + rp).push((i, j)));
                    }
                }
                j += 1;
            }
            if !at_least_one && self.parts[i].gtype != GroupType::Many(0) {
                proof {
                    assert(has_dead_part(a, tv)) by {
                        assert(a[i as int].0 != GroupType::Many(0));
                        assert(forall|k: int| 0 <= k < tv[i as int].len() ==> !tv[i as int][k]);
                    }
                }
                return None;
            }
            proof {
                assert(tv[i as int].len() == d2);
                assert(match_pairs(tv, i + 1) == base + row_pairs(i as int, tv[i as int], d2 as int));
            }
            i += 1;
        }
        proof {
            assert(!has_dead_part(a, tv)) by {
                if has_dead_part(a, tv) {
                    let q = choose|q: int| 0 <= q < a.len() && (#[trigger] a[q]).0 != GroupType::Many(0)
                        && forall|k: int| 0 <= k < tv[q].len() ==> !tv[q][k];
                }
            }
            assert(flow_edges(g) == network(a, b, tv));
            lemma_network_fits(a, b, tv);
            lemma_match_pairs_len(tv, d1 as int, d2 as int);
            lemma_source_len(a, req, t1 as int, d1 as int);
            lemma_sink_len(b, d1 as int, n as int, req, t2 as int, d2 as int);
            assert(d1 * d2 <= MAX_PARTS * MAX_PARTS) by (nonlinear_arith)
                requires d1 <= MAX_PARTS, d2 <= MAX_PARTS;
        }
        assert(flow_edges(g).len() == d1 + d2 + pairs@.len());
        let (fv, flow) = flow_dinic(&g, 0, n - 1);
        assert(d1 + d2 + pairs@.len() <= 2 * MAX_PARTS + MAX_PARTS * MAX_PARTS);
        proof {
            let net = network(a, b, tv);
            assert(flow_edges(g) == net);
            if fv == req {
                assert(feasible_flow(net, flow@, n as nat, 0, (n - 1) as usize));
            }
            if flow_reaches(a, b, tv) {
                let f = choose|f: Seq<i64>| #[trigger] feasible_flow(net, f, n as nat, 0, (n - 1) as usize)
                    && net_flow(net, f, 0) == req;
                assert(feasible_flow(net, flow@, n as nat, 0, (n - 1) as usize));
            }
        }
        read_matching(&pairs, fv, &flow, maxflow, d1 + d2)
    }
}

/// What a maximum flow says of the matching: nothing when its value falls
/// short of `required`; otherwise the pairs of parts whose edge carries flow,
/// with the amount. The edge of pair `m` is edge `base + m` of the network,
/// and its flow is at position `2 * (base + m)`.
pub fn read_matching(pairs: &Vec<(usize, usize)>, value: i64, flow: &Vec<i64>, required: usize, base: usize) -> (r: Option<Vec<((usize, usize), usize)>>)
    requires
        2 * (base + pairs@.len()) <= flow@.len(),
        base + pairs@.len() < 0x1000_0000,
    ensures
        r is Some <==> value == required,
        r matches Some(v) ==> v@ == positive_pairs(pairs@, flow@, base as int, pairs@.len() as int),
{
    if value < 0 || value as u64 != required as u64 {
        return None;
    }
    let mut res: Vec<((usize, usize), usize)> = Vec::new();
    let mut m: usize = 0;
    while m < pairs.len()
        invariant
            m <= pairs@.len(),
            2 * (base + pairs@.len()) <= flow@.len(),
            base + pairs@.len() < 0x1000_0000,
            res@ == positive_pairs(pairs@, flow@, base as int, m as int),
        decreases pairs@.len() - m,
    {
        let f = flow[2 * (base + m)];
        if f > 0 {
            res.push((pairs[m], f as usize));
            assert(res@ =~= positive_pairs(pairs@, flow@, base as int, m + 1));
        }
        m += 1;
    }
    Some(res)
}

/// The table in which part `i` of `a` may take part `j` of `b` when every
/// label of part `j` is a label of part `i`.
pub open spec fn superset_table(a: Seq<PartV>, b: Seq<PartV>) -> Seq<Seq<bool>> {
    Seq::new(a.len(), |i: int| Seq::new(b.len(), |j: int| b[j].1.to_set().subset_of(a[i].1.to_set())))
}

/// The table in which part `i` of `a` may take part `j` of `b` when the two
/// have a label in common.
pub open spec fn meet_table(a: Seq<PartV>, b: Seq<PartV>) -> Seq<Seq<bool>> {
    Seq::new(a.len(), |i: int| Seq::new(b.len(), |j: int| a[i].1.to_set().intersect(b[j].1.to_set()) != Set::<Label>::empty()))
}

/// `f` may be called on every pair of a group of `a` and a group of `b`.
pub open spec fn callable_on<T: Fn(&Group, &Group) -> bool>(f: T, a: Line, b: Line) -> bool {
    forall|i: int, j: int|
        #![trigger a.parts@[i], b.parts@[j]]
        0 <= i < a.parts@.len() && 0 <= j < b.parts@.len() ==> call_requires(f, (&a.parts@[i].group, &b.parts@[j].group))
}

/// `t` holds, for every pair of a group of `a` and a group of `b`, a value that
/// `f` may return on them.
pub open spec fn answers_of<T: Fn(&Group, &Group) -> bool>(f: T, a: Line, b: Line, t: Seq<Seq<bool>>) -> bool {
    &&& table_fits(t, a@, b@)
    &&& forall|i: int, j: int|
        #![trigger a.parts@[i], b.parts@[j]]
        0 <= i < a.parts@.len() && 0 <= j < b.parts@.len() ==> call_ensures(f, (&a.parts@[i].group, &b.parts@[j].group), t[i][j])
}

/// The table that `matches` uses: the superset table without a test, else
/// the answers of the test.
pub open spec fn table_of<T: Fn(&Group, &Group) -> bool>(can_match: Option<T>, a: Line, b: Line, t: Seq<Seq<bool>>) -> bool {
    match can_match {
        None => t == superset_table(a@, b@),
        Some(f) => answers_of(f, a, b, t),
    }
}

/// The smallest label common to `x` and `y`.
pub open spec fn least_common(x: Seq<Label>, y: Seq<Label>) -> Label {
    choose|l: Label| x.contains(l) && y.contains(l) && forall|m: Label| x.contains(m) && y.contains(m) ==> l <= m
}

/// The labels that a matching picks: for each matched pair of parts, their
/// smallest common label, as many times as the pair carries.
pub open spec fn picked_labels(a: Seq<PartV>, b: Seq<PartV>, v: Seq<((usize, usize), usize)>) -> Seq<Label>
    decreases v.len(),
{
    if v.len() == 0 {
        Seq::empty()
    } else {
        let last = v.last();
        picked_labels(a, b, v.drop_last()) + Seq::new(last.1 as nat, |k: int| least_common(a[last.0.0 as int].1, b[last.0.1 as int].1))
    }
}

/// Every pair of `row_pairs` is `(i, j)` with `j < k` and `row[j]`.
proof fn lemma_row_pairs_bounds(i: int, row: Seq<bool>, k: int)
    requires
        0 <= i <= MAX_PARTS,
        0 <= k <= row.len(),
        row.len() <= MAX_PARTS,
    ensures
        forall|m: int| 0 <= m < row_pairs(i, row, k).len() ==>
            (#[trigger] row_pairs(i, row, k)[m]).0 == i && row_pairs(i, row, k)[m].1 < k && row[row_pairs(i, row, k)[m].1 as int],
    decreases k,
{
    if k > 0 {
        lemma_row_pairs_bounds(i, row, k - 1);
        let prev = row_pairs(i, row, k - 1);
        if row[k - 1] {
            let e = (i as usize, (k - 1) as usize);
            assert(row_pairs(i, row, k) == prev.push(e));
            assert forall|m: int| 0 <= m < prev.push(e).len() implies
                (#[trigger] prev.push(e)[m]).0 == i && prev.push(e)[m].1 < k && row[prev.push(e)[m].1 as int] by {
                if m < prev.len() {
                    assert(prev.push(e)[m] == prev[m]);
                }
            }
        }
    }
}

/// Every pair of `match_pairs` indexes a cell of the table that holds `true`.
proof fn lemma_match_pairs_bounds(table: Seq<Seq<bool>>, k: int, w: int)
    requires
        0 <= k <= table.len(),
        table.len() <= MAX_PARTS,
        0 <= w <= MAX_PARTS,
        forall|i: int| 0 <= i < table.len() ==> (#[trigger] table[i]).len() == w,
    ensures
        forall|m: int| 0 <= m < match_pairs(table, k).len() ==>
            (#[trigger] match_pairs(table, k)[m]).0 < k && match_pairs(table, k)[m].1 < w
            && table[match_pairs(table, k)[m].0 as int][match_pairs(table, k)[m].1 as int],
    decreases k,
{
    if k > 0 {
        lemma_match_pairs_bounds(table, k - 1, w);
        lemma_row_pairs_bounds(k - 1, table[k - 1], w);
        let p = match_pairs(table, k - 1);
        let q = row_pairs(k - 1, table[k - 1], w);
        assert forall|m: int| 0 <= m < (p + q).len() implies
            (#[trigger] (p + q)[m]).0 < k && (p + q)[m].1 < w && table[(p + q)[m].0 as int][(p + q)[m].1 as int] by {
            if m >= p.len() {
                assert((p + q)[m] == q[m - p.len()]);
            }
        }
    }
}

/// Every entry of `positive_pairs` has a pair taken from `pairs`.
proof fn lemma_positive_pairs_from(pairs: Seq<(usize, usize)>, flows: Seq<i64>, base: int, k: int)
    requires
        0 <= k <= pairs.len(),
    ensures
        forall|m: int| 0 <= m < positive_pairs(pairs, flows, base, k).len() ==> pairs.contains((#[trigger] positive_pairs(pairs, flows, base, k)[m]).0),
    decreases k,
{
    if k > 0 {
        lemma_positive_pairs_from(pairs, flows, base, k - 1);
        let prev = positive_pairs(pairs, flows, base, k - 1);
        if flows[2 * (base + k - 1)] > 0 {
            let e = (pairs[k - 1], flows[2 * (base + k - 1)] as usize);
            assert(pairs.contains(pairs[k - 1]));
            assert forall|m: int| 0 <= m < prev.push(e).len() implies pairs.contains((#[trigger] prev.push(e)[m]).0) by {
                if m < prev.len() {
                    assert(prev.push(e)[m] == prev[m]);
                }
            }
        }
    }
}

/// Every pair of a matching indexes a part of `a` and a part of `b`.
pub proof fn lemma_matching_bounds(a: Seq<PartV>, b: Seq<PartV>, table: Seq<Seq<bool>>)
    requires
        table_fits(table, a, b),
        matching_spec(a, b, table) is Some,
        a.len() <= MAX_PARTS,
        b.len() <= MAX_PARTS,
    ensures
        forall|m: int| 0 <= m < matching_spec(a, b, table)->Some_0.len() ==>
            (#[trigger] matching_spec(a, b, table)->Some_0[m]).0.0 < a.len() && matching_spec(a, b, table)->Some_0[m].0.1 < b.len()
            && table[matching_spec(a, b, table)->Some_0[m].0.0 as int][matching_spec(a, b, table)->Some_0[m].0.1 as int],
{
    let pairs = match_pairs(table, a.len() as int);
    lemma_match_pairs_bounds(table, a.len() as int, b.len() as int);
    let n = 2 + a.len() + b.len();
    let res = dinic_result(n as nat, network(a, b, table), 0, (n - 1) as usize);
    lemma_positive_pairs_from(pairs, res.1, (a.len() + b.len()) as int, pairs.len() as int);
    let v = matching_spec(a, b, table)->Some_0;
    assert forall|m: int| 0 <= m < v.len() implies (#[trigger] v[m]).0.0 < a.len() && v[m].0.1 < b.len() && table[v[m].0.0 as int][v[m].0.1 as int] by {
        let k = choose|k: int| 0 <= k < pairs.len() && pairs[k] == v[m].0;
        assert(pairs[k].0 < a.len());
    }
}

impl Line {
    /// The superset table of the two lines.
    fn superset_rows(&self, other: &Line) -> (t: Vec<Vec<bool>>)
        requires
            self.wf(),
            other.wf(),
        ensures
            table_view(t@) == superset_table(self@, other@),
    {
        let mut t: Vec<Vec<bool>> = Vec::new();
        let mut i: usize = 0;
        while i < self.parts.len()
            invariant
                self.wf(), other.wf(),
                i <= self@.len(),
                t@.len() == i,
                forall|q: int| 0 <= q < i ==> (#[trigger] t@[q])@ == superset_table(self@, other@)[q],
            decreases self@.len() - i,
        {
            let mut row: Vec<bool> = Vec::new();
            let mut j: usize = 0;
            assert(self.parts@[i as int].group.wf()) by {
                assert(strictly_sorted(self@[i as int].1));
            }
            while j < other.parts.len()
                invariant
                    self.wf(), other.wf(),
                    i < self@.len(),
                    self.parts@[i as int].group.wf(),
                    j <= other@.len(),
                    row@.len() == j,
                    forall|q: int| 0 <= q < j ==> row@[q] == superset_table(self@, other@)[i as int][q],
                decreases other@.len() - j,
            {
                assert(other.parts@[j as int].group.wf()) by {
                    assert(strictly_sorted(other@[j as int].1));
                }
                let b = self.parts[i].group.is_superset(&other.parts[j].group);
                row.push(b);
                j += 1;
            }
            assert(row@ =~= superset_table(self@, other@)[i as int]);
            t.push(row);
            i += 1;
        }
        assert(table_view(t@) =~= superset_table(self@, other@));
        t
    }

    /// The meet table of the two lines.
    fn meet_rows(&self, other: &Line) -> (t: Vec<Vec<bool>>)
        requires
            self.wf(),
            other.wf(),
        ensures
            table_view(t@) == meet_table(self@, other@),
    {
        let mut t: Vec<Vec<bool>> = Vec::new();
        let mut i: usize = 0;
        while i < self.parts.len()
            invariant
                self.wf(), other.wf(),
                i <= self@.len(),
                t@.len() == i,
                forall|q: int| 0 <= q < i ==> (#[trigger] t@[q])@ == meet_table(self@, other@)[q],
            decreases self@.len() - i,
        {
            let mut row: Vec<bool> = Vec::new();
            let mut j: usize = 0;
            assert(self.parts@[i as int].group.wf()) by {
                assert(strictly_sorted(self@[i as int].1));
            }
            while j < other.parts.len()
                invariant
                    self.wf(), other.wf(),
                    i < self@.len(),
                    self.parts@[i as int].group.wf(),
                    j <= other@.len(),
                    row@.len() == j,
                    forall|q: int| 0 <= q < j ==> row@[q] == meet_table(self@, other@)[i as int][q],
                decreases other@.len() - j,
            {
                assert(other.parts@[j as int].group.wf()) by {
                    assert(strictly_sorted(other@[j as int].1));
                }
                let common = self.parts[i].group.intersection(&other.parts[j].group);
                let b = !common.is_empty();
                proof {
                    let x = self@[i as int].1.to_set();
                    let y = other@[j as int].1.to_set();
                    if common@.len() > 0 {
                        assert(common.labels().contains(common@[0]));
                    } else {
                        assert(common.labels() =~= Set::<Label>::empty());
                    }
                }
                row.push(b);
                j += 1;
            }
            assert(row@ =~= meet_table(self@, other@)[i as int]);
            t.push(row);
            i += 1;
        }
        assert(table_view(t@) =~= meet_table(self@, other@));
        t
    }

    /// The answers of a test on every pair of a group of `self` and a group of
    /// `other`.
    fn custom_rows<T: Fn(&Group, &Group) -> bool>(&self, other: &Line, f: &T) -> (t: Vec<Vec<bool>>)
        requires
            callable_on(*f, *self, *other),
        ensures
            answers_of(*f, *self, *other, table_view(t@)),
    {
        let mut t: Vec<Vec<bool>> = Vec::new();
        let mut i: usize = 0;
        while i < self.parts.len()
            invariant
                callable_on(*f, *self, *other),
                i <= self.parts@.len(),
                t@.len() == i,
                forall|q: int| 0 <= q < i ==> (#[trigger] t@[q])@.len() == other.parts@.len(),
                forall|q: int, r: int|
                    #![trigger self.parts@[q], other.parts@[r]]
                    0 <= q < i && 0 <= r < other.parts@.len() ==> call_ensures(*f, (&self.parts@[q].group, &other.parts@[r].group), t@[q]@[r]),
            decreases self.parts@.len() - i,
        {
            let mut row: Vec<bool> = Vec::new();
            let mut j: usize = 0;
            while j < other.parts.len()
                invariant
                    callable_on(*f, *self, *other),
                    i < self.parts@.len(),
                    j <= other.parts@.len(),
                    row@.len() == j,
                    forall|r: int|
                        #![trigger other.parts@[r]]
                        0 <= r < j ==> call_ensures(*f, (&self.parts@[i as int].group, &other.parts@[r].group), row@[r]),
                decreases other.parts@.len() - j,
            {
                let g1 = &self.parts[i].group;
                let g2 = &other.parts[j].group;
                assert(call_requires(*f, (&self.parts@[i as int].group, &other.parts@[j as int].group)));
                let b = f(g1, g2);
                row.push(b);
                j += 1;
            }
            t.push(row);
            i += 1;
        }
        proof {
            let tv = table_view(t@);
            assert forall|q: int| 0 <= q < tv.len() implies (#[trigger] tv[q]).len() == other@.len() by {
                assert(tv[q] == t@[q]@);
            }
            assert forall|q: int, r: int|
                #![trigger self.parts@[q], other.parts@[r]]
                0 <= q < self.parts@.len() && 0 <= r < other.parts@.len() implies call_ensures(*f, (&self.parts@[q].group, &other.parts@[r].group), tv[q][r]) by {
                assert(tv[q] == t@[q]@);
            }
        }
        t
    }

    /// Matches the parts of `other` into the parts of `self`, part `i` of
    /// `self` taking part `j` of `other` where `can_match` says so, or, without
    /// it, where every label of part `j` belongs to part `i`. Gives the pairs
    /// of parts that carry labels, with how many, if all of `other` is covered.
    pub fn matches<T: Fn(&Group, &Group) -> bool>(&self, other: &Line, can_match: Option<T>) -> (r: Option<Vec<((usize, usize), usize)>>)
        requires
            self.wf(),
            other.wf(),
            star_capacity_fits(self@, other@),
            can_match matches Some(f) ==> callable_on(f, *self, *other),
        ensures
            exists|t: Seq<Seq<bool>>| {
                &&& table_of(can_match, *self, *other, t)
                &&& (r is Some <==> matching_spec(self@, other@, t) is Some)
                &&& (r is Some ==> r->Some_0@ == matching_spec(self@, other@, t)->Some_0)
                &&& (r is Some <==> !has_dead_part(self@, t) && flow_reaches(self@, other@, t))
            },
    {
        let t = match &can_match {
            None => self.superset_rows(other),
            Some(f) => self.custom_rows(other, f),
        };
        proof {
            if can_match is None {
                assert(table_fits(superset_table(self@, other@), self@, other@));
            }
        }
        let r = self.matches_with(other, &t);
        assert(table_of(can_match, *self, *other, table_view(t@)));
        r
    }

    /// Whether every configuration that `other` stands for is one of `self`:
    /// the labels of `other` can be matched into the parts of `self`, each
    /// group of `other` into a group of `self` that holds all its labels.
    pub fn includes(&self, other: &Line) -> (r: bool)
        requires
            self.wf(),
            other.wf(),
            star_capacity_fits(self@, other@),
        ensures
            r == matching_spec(self@, other@, superset_table(self@, other@)) is Some,
            r == (!has_dead_part(self@, superset_table(self@, other@)) && flow_reaches(self@, other@, superset_table(self@, other@))),
    {
        let t = self.superset_rows(other);
        self.matches_with(other, &t).is_some()
    }

    /// Like `includes`, but a group of `self` may take a group of `other`
    /// where `is_superset` says so, when it is given.
    pub fn includes_with_custom_supersets<T: Fn(&Group, &Group) -> bool>(&self, other: &Line, is_superset: Option<T>) -> (r: bool)
        requires
            self.wf(),
            other.wf(),
            star_capacity_fits(self@, other@),
            is_superset matches Some(f) ==> callable_on(f, *self, *other),
        ensures
            exists|t: Seq<Seq<bool>>| table_of(is_superset, *self, *other, t) && (r <==> matching_spec(self@, other@, t) is Some),
    {
        self.matches(other, is_superset).is_some()
    }

    /// A configuration that both lines allow, if one exists: the labels of
    /// `other` are matched into the parts of `self` that share a label with
    /// them, and each matched pair of parts gives its smallest common label,
    /// once per label it carries.
    pub fn pick_existing_choice(&self, other: &Line) -> (r: Option<Vec<Label>>)
        requires
            self.wf(),
            other.wf(),
            star_capacity_fits(self@, other@),
        ensures
            r is Some <==> matching_spec(self@, other@, meet_table(self@, other@)) is Some,
            r is Some ==> r->Some_0@ == picked_labels(self@, other@, matching_spec(self@, other@, meet_table(self@, other@))->Some_0),
    {
        let t = self.meet_rows(other);
        let v = match self.matches_with(other, &t) {
            None => { return None; },
            Some(v) => v,
        };
        let ghost mv = matching_spec(self@, other@, meet_table(self@, other@))->Some_0;
        proof {
            assert(table_fits(meet_table(self@, other@), self@, other@));
            lemma_matching_bounds(self@, other@, meet_table(self@, other@));
        }
        let mut labels: Vec<Label> = Vec::new();
        let mut m: usize = 0;
        while m < v.len()
            invariant
                self.wf(), other.wf(),
                v@ == mv,
                m <= v@.len(),
                forall|k: int| 0 <= k < mv.len() ==> (#[trigger] mv[k]).0.0 < self@.len() && mv[k].0.1 < other@.len(),
                forall|k: int| 0 <= k < mv.len() ==> meet_table(self@, other@)[(#[trigger] mv[k]).0.0 as int][mv[k].0.1 as int],
                labels@ == picked_labels(self@, other@, v@.subrange(0, m as int)),
            decreases v@.len() - m,
        {
            let ((i, j), c) = v[m];
            assert(self.parts@[i as int].group.wf()) by {
                assert(strictly_sorted(self@[i as int].1));
            }
            assert(other.parts@[j as int].group.wf()) by {
                assert(strictly_sorted(other@[j as int].1));
            }
            let common = self.parts[i].group.intersection(&other.parts[j].group);
            let ghost x = self@[i as int].1;
            let ghost y = other@[j as int].1;
            proof {
                assert(meet_table(self@, other@)[i as int][j as int]);
                assert(x.to_set().intersect(y.to_set()) != Set::<Label>::empty());
                if common@.len() == 0 {
                    assert(common.labels() =~= Set::<Label>::empty());
                }
            }
            let label = common.first();
            proof {
                assert(common.labels().contains(label));
                assert(x.contains(label) && y.contains(label));
                assert forall|l: Label| x.contains(l) && y.contains(l) implies label <= l by {
                    assert(common.labels().contains(l));
                    let k = choose|k: int| 0 <= k < common@.len() && common@[k] == l;
                    if k > 0 {
                        assert(common@[0] < common@[k]);
                    }
                }
                let w = least_common(x, y);
                assert(x.contains(w) && y.contains(w) && forall|l: Label| x.contains(l) && y.contains(l) ==> w <= l);
                assert(w == label);
            }
            let ghost before = labels@;
            let mut k: usize = 0;
            while k < c
                invariant
                    k <= c,
                    labels@ == before + Seq::new(k as nat, |q: int| label),
                decreases c - k,
            {
                labels.push(label);
                k += 1;
                assert(labels@ =~= before + Seq::new(k as nat, |q: int| label));
            }
            proof {
                let s = v@.subrange(0, m + 1);
                assert(s.drop_last() =~= v@.subrange(0, m as int));
                assert(s.last() == v@[m as int]);
                assert(Seq::new(c as nat, |q: int| label) =~= Seq::new(s.last().1 as nat, |q: int| least_common(self@[s.last().0.0 as int].1, other@[s.last().0.1 as int].1)));
            }
            m += 1;
        }
        assert(v@.subrange(0, v@.len() as int) =~= v@);
        Some(labels)
    }
}

} // verus!
