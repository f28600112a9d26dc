//! The directed UMI graph at one position.
use crate::grouping::ReadFreq;
use crate::umi::{distance_of, Umi};
use vstd::prelude::*;

verus! {

/// A UMI at a position, its reads, and the nodes it points to.
pub struct Node {
    pub umi: Umi,
    pub freq: ReadFreq,
    pub connections: Vec<usize>,
}

/// The count-asymmetric adjacency rule: a UMI at distance `d` with count
/// `freq_to` hangs off one with count `freq_from`.
pub open spec fn adjacency(d: int, freq_from: int, freq_to: int, dist: int, factor: int) -> bool {
    d <= dist && freq_from >= factor * freq_to - 1
}

/// Node `i` of `g` has an edge to node `j`.
pub open spec fn edge(g: Seq<Node>, i: int, j: int, dist: int, factor: int) -> bool {
    i != j && adjacency(
        distance_of(g[i].umi@, g[j].umi@) as int,
        g[i].freq.freq as int,
        g[j].freq.freq as int,
        dist,
        factor,
    )
}

/// The targets of the edges from node `i` to nodes below `k`, ascending.
pub open spec fn edges_upto(g: Seq<Node>, i: int, k: int, dist: int, factor: int) -> Seq<usize>
    decreases k,
{
    if k <= 0 {
        Seq::empty()
    } else if edge(g, i, k - 1, dist, factor) {
        edges_upto(g, i, k - 1, dist, factor).push((k - 1) as usize)
    } else {
        edges_upto(g, i, k - 1, dist, factor)
    }
}

/// Every connection of every node names a node of the graph.
pub open spec fn connections_in_range(g: Seq<Node>) -> bool {
    forall|i: int, k: int|
        0 <= i < g.len() && 0 <= k < g[i].connections@.len() ==> #[trigger] g[i].connections@[k]
            < g.len()
}

/// Whether a UMI at distance `d` with count `freq_to` is adjacent to one with
/// count `freq_from`: `d <= dist` and `freq_from >= factor * freq_to - 1`.
pub fn connects(d: u32, freq_from: u32, freq_to: u32, dist: u32, factor: u32) -> (r: bool)
    ensures
        r == adjacency(d as int, freq_from as int, freq_to as int, dist as int, factor as int),
{
    let f = factor as u64;
    let t = freq_to as u64;
    assert(f * t <= 0xffff_ffffu64 * 0xffff_ffffu64) by (nonlinear_arith)
        requires
            f <= 0xffff_ffffu64,
            t <= 0xffff_ffffu64,
    ;
    let scaled: u64 = f * t;
    d <= dist && (freq_from as u64) + 1 >= scaled
}

/// Create a graph from the UMI map: one node per UMI, without connections.
/// Nodes come in the reverse of the map's order.
pub fn build_graph(reads: Vec<(Umi, ReadFreq)>) -> (r: Vec<Node>)
    ensures
        r@.len() == reads@.len(),
        forall|i: int|
            0 <= i < r@.len() ==> {
                &&& (#[trigger] r@[i]).umi == reads@[reads@.len() - 1 - i].0
                &&& r@[i].freq == reads@[reads@.len() - 1 - i].1
                &&& r@[i].connections@.len() == 0
            },
{
    let mut rest = reads;
    let mut nodes: Vec<Node> = Vec::new();
    while rest.len() > 0
        invariant
            nodes@.len() + rest@.len() == reads@.len(),
            rest@ == reads@.subrange(0, rest@.len() as int),
            forall|i: int|
                0 <= i < nodes@.len() ==> {
                    &&& (#[trigger] nodes@[i]).umi == reads@[reads@.len() - 1 - i].0
                    &&& nodes@[i].freq == reads@[reads@.len() - 1 - i].1
                    &&& nodes@[i].connections@.len() == 0
                },
        decreases rest@.len(),
    {
        let (umi, freq) = rest.pop().unwrap();
        nodes.push(Node { umi, freq, connections: Vec::new() });
    }
    nodes
}

/// Create the connections between the UMIs by an all-against-all comparison:
/// node `i` gets an edge to every other node `j` that it is adjacent to, in
/// ascending order of `j`, after the connections it already had.
pub fn connect_graph(graph: Vec<Node>, dist: u32, counts_factor: u32) -> (r: Vec<Node>)
    ensures
        r@.len() == graph@.len(),
        forall|i: int|
            0 <= i < r@.len() ==> {
                &&& (#[trigger] r@[i]).umi == graph@[i].umi
                &&& r@[i].freq == graph@[i].freq
                &&& r@[i].connections@ == graph@[i].connections@ + edges_upto(
                    graph@,
                    i,
                    graph@.len() as int,
                    dist as int,
                    counts_factor as int,
                )
            },
{
    let mut graph = graph;
    let n = graph.len();
    let ghost g0 = graph@;
    let mut i: usize = 0;
    while i < n
        invariant
            n == graph@.len() == g0.len(),
            i <= n,
            forall|t: int|
                0 <= t < n ==> {
                    &&& (#[trigger] graph@[t]).umi == g0[t].umi
                    &&& graph@[t].freq == g0[t].freq
                    &&& graph@[t].connections@ == if t < i {
                        g0[t].connections@ + edges_upto(g0, t, n as int, dist as int, counts_factor as int)
                    } else {
                        g0[t].connections@
                    }
                },
        decreases n - i,
    {
        let mut j: usize = 0;
        while j < n
            invariant
                n == graph@.len() == g0.len(),
                i < n,
                j <= n,
                forall|t: int|
                    0 <= t < n ==> {
                        &&& (#[trigger] graph@[t]).umi == g0[t].umi
                        &&& graph@[t].freq == g0[t].freq
                        &&& graph@[t].connections@ == if t < i {
                            g0[t].connections@ + edges_upto(g0, t, n as int, dist as int, counts_factor as int)
                        } else if t == i {
                            g0[t].connections@ + edges_upto(g0, t, j as int, dist as int, counts_factor as int)
                        } else {
                            g0[t].connections@
                        }
                    },
            decreases n - j,
        {
            if i != j {
                let d = graph[i].umi.distance(&graph[j].umi);
                if connects(d, graph[i].freq.freq, graph[j].freq.freq, dist, counts_factor) {
                    graph[i].connections.push(j);
                }
            }
            j = j + 1;
        }
        i = i + 1;
    }
    graph
}

} // verus!
