use vstd::prelude::*;
use contest_algorithms::graph::flow::FlowGraph;

verus! {

/// The flow network type of `contest_algorithms`.
#[verifier::external_type_specification]
#[verifier::external_body]
pub struct ExFlowGraph(FlowGraph);

/// The number of vertices of a flow network.
pub uninterp spec fn flow_vertices(g: FlowGraph) -> nat;

/// The edges added to a flow network, in order: endpoints, capacity, reverse
/// capacity, cost.
pub uninterp spec fn flow_edges(g: FlowGraph) -> Seq<(usize, usize, i64, i64, i64)>;

/// What Dinic's algorithm returns on a network with these vertices and edges,
/// from `s` to `t`: the value of a maximum flow, and the flow on each directed
/// edge (edge `2k` is the `k`-th added edge, `2k + 1` its reverse).
pub uninterp spec fn dinic_result(vertices: nat, edges: Seq<(usize, usize, i64, i64, i64)>, s: usize, t: usize) -> (i64, Seq<i64>);

/// What an edge sends out of vertex `v` when it carries `x` from its first
/// endpoint to its second.
pub open spec fn edge_net(e: (usize, usize, i64, i64, i64), x: int, v: usize) -> int {
    (if e.0 == v { x } else { 0 }) - (if e.1 == v { x } else { 0 })
}

/// What leaves vertex `v` under the flow `f`, less what enters it; the flow on
/// edge `k` is `f[2k]`.
pub open spec fn net_flow(edges: Seq<(usize, usize, i64, i64, i64)>, f: Seq<i64>, v: usize) -> int
    decreases edges.len(),
{
    if edges.len() == 0 {
        0
    } else {
        net_flow(edges.drop_last(), f, v) + edge_net(edges.last(), f[2 * (edges.len() - 1)] as int, v)
    }
}

/// `f` is a flow from `s` to `t` on a network of `n` vertices: entry `2k` is
/// the flow on edge `k`, entry `2k + 1` its opposite on the reverse edge, each
/// within its capacity, and every other vertex lets out what comes in.
pub open spec fn feasible_flow(edges: Seq<(usize, usize, i64, i64, i64)>, f: Seq<i64>, n: nat, s: usize, t: usize) -> bool {
    &&& f.len() == 2 * edges.len()
    &&& forall|k: int| 0 <= k < edges.len() ==> f[2 * k + 1] == -f[2 * k]
        && f[2 * k] <= (#[trigger] edges[k]).2 && f[2 * k + 1] <= edges[k].3
    &&& forall|v: usize| v < n && v != s && v != t ==> #[trigger] net_flow(edges, f, v) == 0
}

/// A network on `vmax` vertices without edges.
///
/// Trusted: calls `FlowGraph::new`, whose source allocates `vmax` vertices
/// and no edges (`emax_hint` only reserves room).
#[verifier::external_body]
pub(crate) fn flow_new(vmax: usize, emax_hint: usize) -> (g: FlowGraph)
    requires
        emax_hint < 0x1000_0000,
    ensures
        flow_vertices(g) == vmax,
        flow_edges(g) == Seq::<(usize, usize, i64, i64, i64)>::empty(),
{
    FlowGraph::new(vmax, emax_hint)
}

/// Adds an edge from `u` to `v`.
///
/// Trusted: calls `FlowGraph::add_edge`, whose source records the capacities
/// and costs and adds the edge and its reverse to the graph; it indexes the
/// vertices, so both must exist, and it negates the cost, so the cost must not
/// be the least `i64`.
#[verifier::external_body]
pub(crate) fn flow_add_edge(g: &mut FlowGraph, u: usize, v: usize, cap: i64, rcap: i64, cost: i64)
    requires
        u < flow_vertices(*old(g)),
        v < flow_vertices(*old(g)),
        cost > i64::MIN,
    ensures
        flow_vertices(*final(g)) == flow_vertices(*old(g)),
        flow_edges(*final(g)) == flow_edges(*old(g)).push((u, v, cap, rcap, cost)),
{
    g.add_edge(u, v, cap, rcap, cost)
}

/// Runs Dinic's algorithm from `s` to `t`.
///
/// Trusted: calls `FlowGraph::dinic`, documented to find the maximum flow
/// from `s` to `t`. The source returns the value of the flow and a vector
/// with one entry per directed edge, twice as many as the added edges: it
/// adds what it pushes along an edge to the edge's entry and takes it off the
/// entry of the reverse edge, never beyond a capacity, and the value is the
/// sum of what it pushed out of `s`. So the contract states a feasible flow
/// whose value no feasible flow exceeds. The source panics when the flow
/// reaches 2^63, which the small capacities required here rule out, and
/// expects `s != t`. Which maximum flow it finds is left to the name
/// `dinic_result`.
#[verifier::external_body]
pub(crate) fn flow_dinic(g: &FlowGraph, s: usize, t: usize) -> (r: (i64, Vec<i64>))
    requires
        s != t,
        s < flow_vertices(*g),
        t < flow_vertices(*g),
        flow_edges(*g).len() < 0x1000_0000,
        forall|k: int| 0 <= k < flow_edges(*g).len() ==> 0 <= (#[trigger] flow_edges(*g)[k]).2 < 0x1_0000_0000
            && 0 <= flow_edges(*g)[k].3 < 0x1_0000_0000,
    ensures
        (r.0, r.1@) == dinic_result(flow_vertices(*g), flow_edges(*g), s, t),
        r.1@.len() == 2 * flow_edges(*g).len(),
        r.0 >= 0,
        feasible_flow(flow_edges(*g), r.1@, flow_vertices(*g), s, t),
        r.0 == net_flow(flow_edges(*g), r.1@, s),
        forall|f: Seq<i64>| #[trigger] feasible_flow(flow_edges(*g), f, flow_vertices(*g), s, t)
            ==> net_flow(flow_edges(*g), f, s) <= r.0,
{
    g.dinic(s, t)
}

} // verus!
