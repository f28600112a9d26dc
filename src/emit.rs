//! What one position of a bundle yields: one read per cluster, or every read
//! labelled with its cluster's master UMI.
use crate::cluster::{clustering, determine_umi, Group};
use crate::graph::{build_graph, connect_graph, connections_in_range, edge, edges_upto, Node};
use crate::grouping::{Config, ReadCollection, ReadFreq};
use crate::umi::Umi;
use vstd::prelude::*;

verus! {

/// The reads of one cluster, labelled with the master's UMI.
#[derive(Debug)]
pub struct LabeledGroup {
    /// Bases of the master UMI.
    pub umi: Vec<u8>,
    /// Indices of the cluster's reads.
    pub reads: Vec<usize>,
}

/// `g` is the connected graph of the UMI map `reads`: one node per entry, in
/// reverse order, with the edges that the adjacency rule gives.
pub open spec fn locus_graph(reads: Seq<(Umi, ReadFreq)>, g: Seq<Node>, dist: int, factor: int) -> bool {
    &&& g.len() == reads.len()
    &&& forall|i: int|
        0 <= i < g.len() ==> {
            &&& (#[trigger] g[i]).umi == reads[reads.len() - 1 - i].0
            &&& g[i].freq == reads[reads.len() - 1 - i].1
            &&& g[i].connections@ == edges_upto(g, i, g.len() as int, dist, factor)
        }
}

/// The reads a node holds.
pub open spec fn node_reads(node: Node) -> Seq<usize> {
    match node.freq.read {
        ReadCollection::ManyReads(v) => v@,
        ReadCollection::SingleRead(i) => seq![i],
    }
}

/// The reads of the first `k` nodes of a cluster, in node order.
pub open spec fn cluster_reads(g: Seq<Node>, nodes: Seq<usize>, k: int) -> Seq<usize>
    decreases k,
{
    if k <= 0 {
        Seq::empty()
    } else {
        cluster_reads(g, nodes, k - 1) + node_reads(g[nodes[k - 1] as int])
    }
}

pub(crate) proof fn lemma_edges_below(g: Seq<Node>, i: int, k: int, dist: int, factor: int)
    ensures
        forall|t: int| 0 <= t < edges_upto(g, i, k, dist, factor).len() ==> #[trigger] edges_upto(g, i, k, dist, factor)[t] < k,
    decreases k,
{
    if k > 0 {
        lemma_edges_below(g, i, k - 1, dist, factor);
        let prev = edges_upto(g, i, k - 1, dist, factor);
        let cur = edges_upto(g, i, k, dist, factor);
        assert forall|t: int| 0 <= t < cur.len() implies #[trigger] cur[t] < k by {
            if t < prev.len() {
                assert(cur[t] == prev[t]);
            }
        }
    }
}

/// Edges depend on the UMIs and counts alone.
proof fn lemma_edges_congruent(g: Seq<Node>, h: Seq<Node>, i: int, k: int, dist: int, factor: int)
    requires
        g.len() == h.len(),
        0 <= i < g.len(),
        k <= g.len(),
        forall|t: int| 0 <= t < g.len() ==> (#[trigger] g[t]).umi == h[t].umi && g[t].freq == h[t].freq,
    ensures
        edges_upto(g, i, k, dist, factor) == edges_upto(h, i, k, dist, factor),
    decreases k,
{
    if k > 0 {
        lemma_edges_congruent(g, h, i, k - 1, dist, factor);
        assert(g[k - 1].umi == h[k - 1].umi && g[k - 1].freq == h[k - 1].freq);
        assert(edge(g, i, k - 1, dist, factor) == edge(h, i, k - 1, dist, factor));
    }
}

/// Builds and connects the graph of one position.
fn locus(reads: Vec<(Umi, ReadFreq)>, config: &Config) -> (g: Vec<Node>)
    ensures
        locus_graph(reads@, g@, config.allowed_read_dist as int, config.allowed_count_factor as int),
        connections_in_range(g@),
{
    let ghost r0 = reads@;
    let g0 = build_graph(reads);
    let ghost s0 = g0@;
    let g = connect_graph(g0, config.allowed_read_dist, config.allowed_count_factor);
    proof {
        let dist = config.allowed_read_dist as int;
        let factor = config.allowed_count_factor as int;
        let n = g@.len() as int;
        assert forall|i: int| 0 <= i < n implies {
            &&& (#[trigger] g@[i]).umi == r0[r0.len() - 1 - i].0
            &&& g@[i].freq == r0[r0.len() - 1 - i].1
            &&& g@[i].connections@ == edges_upto(g@, i, n, dist, factor)
        } by {
            lemma_edges_congruent(s0, g@, i, n, dist, factor);
            assert(s0[i].connections@.len() == 0);
            assert(g@[i].connections@ =~= edges_upto(s0, i, n, dist, factor));
        }
        assert forall|i: int, k: int|
            0 <= i < n && 0 <= k < g@[i].connections@.len() implies #[trigger] g@[i].connections@[k] < n by {
            lemma_edges_below(g@, i, n, dist, factor);
        }
    }
    g
}

/// Deduplicate the reads of one position: the representative read of each
/// cluster's master, one per cluster, in cluster order.
pub fn dedup(reads: Vec<(Umi, ReadFreq)>, config: &Config) -> (r: Vec<usize>)
    requires
        config.allowed_network_depth >= 1,
        forall|a: int| 0 <= a < reads@.len() ==> (#[trigger] reads@[a]).1.read is SingleRead,
    ensures
        exists|g: Seq<Node>, groups: Seq<Group>|
            {
                &&& locus_graph(reads@, g, config.allowed_read_dist as int, config.allowed_count_factor as int)
                &&& clustering(g, groups, config.allowed_network_depth as nat)
                &&& r@.len() == groups.len()
                &&& forall|i: int|
                    0 <= i < groups.len() ==> g[(#[trigger] groups[i]).nodes@[groups[i].master_node as int] as int].freq.read
                        == ReadCollection::SingleRead(r@[i])
            },
{
    let ghost r0 = reads@;
    let graph = locus(reads, config);
    let groups = determine_umi(&graph, config.allowed_network_depth);
    let mut out: Vec<usize> = Vec::new();
    let mut i: usize = 0;
    while i < groups.len()
        invariant
            i <= groups@.len(),
            out@.len() == i,
            clustering(graph@, groups@, config.allowed_network_depth as nat),
            locus_graph(r0, graph@, config.allowed_read_dist as int, config.allowed_count_factor as int),
            forall|a: int| 0 <= a < r0.len() ==> (#[trigger] r0[a]).1.read is SingleRead,
            forall|t: int|
                0 <= t < i ==> graph@[(#[trigger] groups@[t]).nodes@[groups@[t].master_node as int] as int].freq.read
                    == ReadCollection::SingleRead(out@[t]),
        decreases groups@.len() - i,
    {
        let grp = &groups[i];
        assert(grp.nodes@.len() > 0 && grp.master_node < grp.nodes@.len());
        let v = grp.nodes[grp.master_node];
        assert(grp.nodes@ == crate::cluster::node_lists(groups@)[i as int]);
        assert(v < graph@.len());
        assert(graph@[v as int].freq == r0[r0.len() - 1 - v].1);
        match graph[v].freq.read {
            ReadCollection::SingleRead(idx) => {
                out.push(idx);
            },
            ReadCollection::ManyReads(_) => {
                // every entry of a deduplication map holds a single read
                assert(false);
            },
        }
        i = i + 1;
    }
    out
}

/// Group the reads of one position: for each cluster, all reads of all its
/// nodes in node order, labelled with the master's UMI.
pub fn label_groups(reads: Vec<(Umi, ReadFreq)>, config: &Config) -> (r: Vec<LabeledGroup>)
    requires
        config.allowed_network_depth >= 1,
    ensures
        exists|g: Seq<Node>, groups: Seq<Group>|
            {
                &&& locus_graph(reads@, g, config.allowed_read_dist as int, config.allowed_count_factor as int)
                &&& clustering(g, groups, config.allowed_network_depth as nat)
                &&& r@.len() == groups.len()
                &&& forall|i: int|
                    0 <= i < groups.len() ==> {
                        &&& (#[trigger] r@[i]).umi@ == g[groups[i].nodes@[groups[i].master_node as int] as int].umi@
                        &&& r@[i].reads@ == cluster_reads(g, groups[i].nodes@, groups[i].nodes@.len() as int)
                    }
            },
{
    let ghost r0 = reads@;
    let graph = locus(reads, config);
    let groups = determine_umi(&graph, config.allowed_network_depth);
    let mut out: Vec<LabeledGroup> = Vec::new();
    let mut i: usize = 0;
    while i < groups.len()
        invariant
            i <= groups@.len(),
            out@.len() == i,
            clustering(graph@, groups@, config.allowed_network_depth as nat),
            locus_graph(r0, graph@, config.allowed_read_dist as int, config.allowed_count_factor as int),
            forall|t: int|
                0 <= t < i ==> {
                    &&& (#[trigger] out@[t]).umi@ == graph@[groups@[t].nodes@[groups@[t].master_node as int] as int].umi@
                    &&& out@[t].reads@ == cluster_reads(graph@, groups@[t].nodes@, groups@[t].nodes@.len() as int)
                },
        decreases groups@.len() - i,
    {
        let grp = &groups[i];
        assert(grp.nodes@ == crate::cluster::node_lists(groups@)[i as int]);
        let mut list: Vec<usize> = Vec::new();
        let mut k: usize = 0;
        while k < grp.nodes.len()
            invariant
                k <= grp.nodes@.len(),
                forall|q: int| 0 <= q < grp.nodes@.len() ==> #[trigger] grp.nodes@[q] < graph@.len(),
                list@ == cluster_reads(graph@, grp.nodes@, k as int),
            decreases grp.nodes@.len() - k,
        {
            let v = grp.nodes[k];
            match &graph[v].freq.read {
                ReadCollection::SingleRead(idx) => {
                    list.push(*idx);
                    assert(list@ =~= cluster_reads(graph@, grp.nodes@, k + 1));
                },
                ReadCollection::ManyReads(rs) => {
                    let mut q: usize = 0;
                    let ghost before = list@;
                    while q < rs.len()
                        invariant
                            q <= rs@.len(),
                            list@ == before + rs@.subrange(0, q as int),
                        decreases rs@.len() - q,
                    {
                        list.push(rs[q]);
                        q = q + 1;
                        assert(list@ =~= before + rs@.subrange(0, q as int));
                    }
                    assert(rs@.subrange(0, rs@.len() as int) =~= rs@);
                },
            }
            k = k + 1;
        }
        let master = grp.nodes[grp.master_node];
        let umi = graph[master].umi.bases();
        out.push(LabeledGroup { umi, reads: list });
        i = i + 1;
    }
    out
}

} // verus!
