//! Properties that relate the library's functions, proved once for all inputs.
use crate::cluster::{clustering, holds_node, node_lists, ranks_below, within, Group};
use crate::emit::{cluster_reads, lemma_edges_below, locus_graph, node_reads, LabeledGroup};
use crate::graph::{edge, edges_upto, Node};
use crate::grouping::{kept, key_pos, key_umi, map_ok, matches_key, members, Config, ReadCollection, ReadFreq, UmiMap};
use crate::position::{lemma_pos_order, position_of, Position};
use crate::record::Record;
use crate::umi::{distance_of, hamming, mismatch_at, mismatches_upto, Umi};
use vstd::prelude::*;

verus! {

/// Grouping counts exactly: the frequency stored for each (position, UMI)
/// pair is the number of input records grouped under that pair.
pub proof fn lemma_frequency_counts_reads(recs: Seq<Record>, cfg: Config, map: Seq<(Position, UmiMap)>)
    requires
        map_ok(recs, cfg, recs.len() as int, map),
    ensures
        forall|i: int, a: int|
            0 <= i < map.len() && 0 <= a < map[i].1@.len() ==> (#[trigger] map[i].1@[a]).1.freq == members(
                recs,
                cfg,
                map[i].0,
                map[i].1@[a].0@,
                recs.len() as int,
            ).len(),
{
    assert forall|i: int, a: int| 0 <= i < map.len() && 0 <= a < map[i].1@.len() implies (
    #[trigger] map[i].1@[a]).1.freq == members(recs, cfg, map[i].0, map[i].1@[a].0@, recs.len() as int).len() by {
        assert(crate::grouping::entry_ok(recs, cfg, recs.len() as int, map[i].0, map[i].1@[a].0@, map[i].1@[a].1));
    }
}

/// Clusters at a position are pairwise disjoint, and together they hold
/// every node of the graph.
pub proof fn lemma_clusters_partition(g: Seq<Node>, groups: Seq<Group>, depth: nat)
    requires
        clustering(g, groups, depth),
    ensures
        forall|i: int, k: int, j: int, l: int|
            0 <= i < groups.len() && 0 <= j < groups.len() && i != j && 0 <= k < groups[i].nodes@.len() && 0
                <= l < groups[j].nodes@.len() ==> #[trigger] groups[i].nodes@[k] != #[trigger] groups[j].nodes@[l],
        forall|v: int| 0 <= v < g.len() ==> #[trigger] holds_node(node_lists(groups), v),
{
    let gs = node_lists(groups);
    assert forall|i: int, k: int, j: int, l: int|
        0 <= i < groups.len() && 0 <= j < groups.len() && i != j && 0 <= k < groups[i].nodes@.len() && 0
            <= l < groups[j].nodes@.len() implies #[trigger] groups[i].nodes@[k] != #[trigger] groups[j].nodes@[l] by {
        assert(gs[i] == groups[i].nodes@);
        assert(gs[j] == groups[j].nodes@);
    }
}

proof fn lemma_edges_upto_sound(g: Seq<Node>, i: int, k: int, dist: int, factor: int)
    requires
        k <= usize::MAX,
    ensures
        forall|t: int|
            0 <= t < edges_upto(g, i, k, dist, factor).len() ==> edge(
                g,
                i,
                #[trigger] edges_upto(g, i, k, dist, factor)[t] as int,
                dist,
                factor,
            ),
    decreases k,
{
    if k > 0 {
        lemma_edges_upto_sound(g, i, k - 1, dist, factor);
        let prev = edges_upto(g, i, k - 1, dist, factor);
        let cur = edges_upto(g, i, k, dist, factor);
        assert forall|t: int| 0 <= t < cur.len() implies edge(g, i, #[trigger] cur[t] as int, dist, factor) by {
            if t < prev.len() {
                assert(cur[t] == prev[t]);
            }
        }
    }
}

/// Every edge of a position's graph obeys the adjacency rule: the UMIs lie
/// within `dist` (for UMIs of one length, the Hamming distance) and the source
/// count is at least `factor` times the target count, less one.
pub proof fn lemma_edges_obey_rule(reads: Seq<(Umi, crate::grouping::ReadFreq)>, g: Seq<Node>, dist: int, factor: int)
    requires
        locus_graph(reads, g, dist, factor),
        g.len() <= usize::MAX,
    ensures
        forall|i: int, k: int|
            0 <= i < g.len() && 0 <= k < g[i].connections@.len() ==> {
                let j = #[trigger] g[i].connections@[k] as int;
                &&& 0 <= j < g.len()
                &&& j != i
                &&& distance_of(g[i].umi@, g[j].umi@) <= dist
                &&& g[i].freq.freq >= factor * g[j].freq.freq - 1
            },
{
    assert forall|i: int, k: int| 0 <= i < g.len() && 0 <= k < g[i].connections@.len() implies {
        let j = #[trigger] g[i].connections@[k] as int;
        &&& 0 <= j < g.len()
        &&& j != i
        &&& distance_of(g[i].umi@, g[j].umi@) <= dist
        &&& g[i].freq.freq >= factor * g[j].freq.freq - 1
    } by {
        lemma_edges_upto_sound(g, i, g.len() as int, dist, factor);
        lemma_edges_below(g, i, g.len() as int, dist, factor);
        let j = g[i].connections@[k] as int;
        assert(edge(g, i, j, dist, factor));
    }
}

/// The position of a read depends on its target, start, CIGAR, strand and
/// template length alone: two reads that agree there share a position,
/// whatever else they hold.
pub proof fn lemma_position_ignores_other_fields(a: Record, b: Record, ignore_splice_pos: bool, use_tlen: bool)
    requires
        a.tid == b.tid,
        a.pos == b.pos,
        a.cigar@ == b.cigar@,
        a.is_reverse == b.is_reverse,
        a.insert_size == b.insert_size,
    ensures
        position_of(a, ignore_splice_pos, use_tlen) == position_of(b, ignore_splice_pos, use_tlen),
{
}

/// Within one edge of the seed lies the seed or a direct neighbour of it.
proof fn lemma_within_one(g: Seq<Node>, s: int, v: int)
    requires
        within(g, s, v, 1),
    ensures
        v == s || g[s].connections@.contains(v as usize),
{
    assert(within(g, s, v, 1) == (within(g, s, v, 0) || exists|u: int|
        0 <= u < g.len() && within(g, s, u, 0) && #[trigger] g[u].connections@.contains(v as usize)));
    if v != s {
        let u = choose|u: int| 0 <= u < g.len() && within(g, s, u, 0) && #[trigger] g[u].connections@.contains(v as usize);
        assert(within(g, s, u, 0) == (u == s));
    }
}

/// A cluster whose every member is its seed is a single node.
proof fn lemma_only_seed(g: Seq<Node>, groups: Seq<Group>, depth: nat, i: int)
    requires
        clustering(g, groups, depth),
        0 <= i < groups.len(),
        forall|k: int| 0 <= k < groups[i].nodes@.len() ==> #[trigger] groups[i].nodes@[k] == groups[i].nodes@[0],
    ensures
        groups[i].nodes@.len() == 1,
{
    let gs = node_lists(groups);
    assert(gs[i] == groups[i].nodes@);
    assert(groups[i].nodes@.len() > 0);
    if groups[i].nodes@.len() > 1 {
        assert(gs[i][1] == gs[i][0]);
    }
}

/// With a network depth of one, every cluster is a single node, for every
/// graph in which each edge points to a node that comes earlier in seed
/// order (higher count, or equal count and lower index). On other graphs a
/// seed takes its unassigned direct neighbours at this depth too.
pub proof fn lemma_depth_one_singletons(g: Seq<Node>, groups: Seq<Group>)
    requires
        clustering(g, groups, 1),
        forall|i: int, k: int|
            0 <= i < g.len() && 0 <= k < g[i].connections@.len() ==> ranks_below(
                g,
                i,
                #[trigger] g[i].connections@[k] as int,
            ),
    ensures
        forall|i: int| 0 <= i < groups.len() ==> (#[trigger] groups[i]).nodes@.len() == 1,
{
    let gs = node_lists(groups);
    assert forall|i: int| 0 <= i < groups.len() implies (#[trigger] groups[i]).nodes@.len() == 1 by {
        assert(gs[i] == groups[i].nodes@);
        assert(gs[i].len() > 0);
        let s = gs[i][0] as int;
        assert forall|k: int| 0 <= k < groups[i].nodes@.len() implies #[trigger] groups[i].nodes@[k] == groups[i].nodes@[0] by {
            let v = gs[i][k] as int;
            assert(within(g, s, v, 1));
            assert(ranks_below(g, v, s));
            lemma_within_one(g, s, v);
            if v != s {
                let idx = choose|idx: int| 0 <= idx < g[s].connections@.len() && g[s].connections@[idx] == v as usize;
                assert(s < g.len());
                assert(ranks_below(g, s, g[s].connections@[idx] as int));
            }
        }
        lemma_only_seed(g, groups, 1, i);
    }
}

proof fn lemma_hamming_zero(a: Seq<u8>, b: Seq<u8>, n: int)
    requires
        0 <= n <= a.len(),
        n <= b.len(),
        mismatches_upto(a, b, n) == 0,
    ensures
        forall|t: int| 0 <= t < n ==> a[t] == b[t],
    decreases n,
{
    if n > 0 {
        lemma_hamming_zero(a, b, n - 1);
        assert(!mismatch_at(a, b, n - 1));
    }
}

/// Without edges nothing but the seed lies within any depth of it.
proof fn lemma_within_edgeless(g: Seq<Node>, s: int, v: int, h: nat)
    requires
        within(g, s, v, h),
        forall|u: int| 0 <= u < g.len() ==> (#[trigger] g[u]).connections@.len() == 0,
    ensures
        v == s,
    decreases h,
{
    if h > 0 {
        if within(g, s, v, (h - 1) as nat) {
            lemma_within_edgeless(g, s, v, (h - 1) as nat);
        } else {
            let u = choose|u: int|
                0 <= u < g.len() && within(g, s, u, (h - 1) as nat) && #[trigger] g[u].connections@.contains(
                    v as usize,
                );
            assert(g[u].connections@.len() == 0);
        }
    }
}

/// With a read distance of zero, clusters are the exact UMIs: every cluster
/// of a position's graph is a single node, for UMIs that are distinct and of
/// one length, as grouping makes them.
pub proof fn lemma_distance_zero_exact(
    reads: Seq<(Umi, crate::grouping::ReadFreq)>,
    g: Seq<Node>,
    factor: int,
    groups: Seq<Group>,
    depth: nat,
)
    requires
        locus_graph(reads, g, 0, factor),
        g.len() <= usize::MAX,
        clustering(g, groups, depth),
        forall|a: int, b: int| 0 <= a < b < reads.len() ==> #[trigger] reads[a].0@ != #[trigger] reads[b].0@,
        forall|a: int, b: int|
            0 <= a < reads.len() && 0 <= b < reads.len() ==> (#[trigger] reads[a]).0@.len() == (
            #[trigger] reads[b]).0@.len(),
    ensures
        forall|i: int| 0 <= i < groups.len() ==> (#[trigger] groups[i]).nodes@.len() == 1,
{
    let n = g.len() as int;
    lemma_edges_obey_rule(reads, g, 0, factor);
    assert forall|u: int| 0 <= u < n implies (#[trigger] g[u]).connections@.len() == 0 by {
        if g[u].connections@.len() > 0 {
            let j = g[u].connections@[0] as int;
            assert(j != u && distance_of(g[u].umi@, g[j].umi@) <= 0);
            assert(g[u].umi == reads[n - 1 - u].0);
            assert(g[j].umi == reads[n - 1 - j].0);
            assert(g[u].umi@.len() == g[j].umi@.len());
            lemma_hamming_zero(g[u].umi@, g[j].umi@, g[u].umi@.len() as int);
            assert(g[u].umi@ =~= g[j].umi@);
            if n - 1 - u < n - 1 - j {
                assert(reads[n - 1 - u].0@ != reads[n - 1 - j].0@);
            } else {
                assert(reads[n - 1 - j].0@ != reads[n - 1 - u].0@);
            }
        }
    }
    let gs = node_lists(groups);
    assert forall|i: int| 0 <= i < groups.len() implies (#[trigger] groups[i]).nodes@.len() == 1 by {
        assert(gs[i] == groups[i].nodes@);
        assert forall|k: int| 0 <= k < groups[i].nodes@.len() implies #[trigger] groups[i].nodes@[k] == groups[i].nodes@[0] by {
            assert(within(g, gs[i][0] as int, gs[i][k] as int, depth));
            lemma_within_edgeless(g, gs[i][0] as int, gs[i][k] as int, depth);
        }
        lemma_only_seed(g, groups, depth, i);
    }
}

proof fn lemma_hamming_symmetric(a: Seq<u8>, b: Seq<u8>, n: int)
    ensures
        mismatches_upto(a, b, n) == mismatches_upto(b, a, n),
    decreases n,
{
    if n > 0 {
        lemma_hamming_symmetric(a, b, n - 1);
    }
}

/// With a count factor of one, adjacency between UMIs of one length whose
/// counts differ by at most one is symmetric: either way it holds exactly
/// when their Hamming distance is within `dist`. For counts further apart
/// the edge runs from the larger count only.
pub proof fn lemma_unit_factor_symmetric(g: Seq<Node>, i: int, j: int, dist: int)
    requires
        0 <= i < g.len(),
        0 <= j < g.len(),
        i != j,
        g[i].umi@.len() == g[j].umi@.len(),
    ensures
        -1 <= g[i].freq.freq - g[j].freq.freq <= 1 ==> edge(g, i, j, dist, 1) == edge(g, j, i, dist, 1),
        -1 <= g[i].freq.freq - g[j].freq.freq <= 1 ==> edge(g, i, j, dist, 1) == (hamming(
            g[i].umi@,
            g[j].umi@,
        ) <= dist),
        hamming(g[i].umi@, g[j].umi@) <= dist ==> edge(g, i, j, dist, 1) || edge(g, j, i, dist, 1),
{
    lemma_hamming_symmetric(g[i].umi@, g[j].umi@, g[i].umi@.len() as int);
}

// ---- every read comes out once ----

/// The reads of the nodes `s`, in that order.
pub open spec fn nodes_reads(g: Seq<Node>, s: Seq<usize>) -> Seq<usize>
    decreases s.len(),
{
    if s.len() == 0 {
        Seq::empty()
    } else {
        nodes_reads(g, s.drop_last()) + node_reads(g[s.last() as int])
    }
}

/// The reads an entry of a UMI map holds.
pub open spec fn entry_reads(e: (Umi, ReadFreq)) -> Seq<usize> {
    match e.1.read {
        ReadCollection::ManyReads(v) => v@,
        ReadCollection::SingleRead(i) => seq![i],
    }
}

/// The reads of the first `k` entries of a UMI map, in order.
pub open spec fn map_reads(reads: Seq<(Umi, ReadFreq)>, k: int) -> Seq<usize>
    decreases k,
{
    if k <= 0 {
        Seq::empty()
    } else {
        map_reads(reads, k - 1) + entry_reads(reads[k - 1])
    }
}

/// The reads of the first `k` labelled clusters, in order.
pub open spec fn labeled_reads(out: Seq<LabeledGroup>, k: int) -> Seq<usize>
    decreases k,
{
    if k <= 0 {
        Seq::empty()
    } else {
        labeled_reads(out, k - 1) + out[k - 1].reads@
    }
}

/// The node lists of the first `k` clusters, one after another.
pub open spec fn flat_nodes(gs: Seq<Seq<usize>>, k: int) -> Seq<usize>
    decreases k,
{
    if k <= 0 {
        Seq::empty()
    } else {
        flat_nodes(gs, k - 1) + gs[k - 1]
    }
}

/// The node indices from `n - 1` down to 0.
pub open spec fn down_from(n: int) -> Seq<usize> {
    Seq::new(n as nat, |i: int| (n - 1 - i) as usize)
}

proof fn lemma_cluster_reads_prefix(g: Seq<Node>, s: Seq<usize>, k: int)
    requires
        0 <= k <= s.len(),
    ensures
        cluster_reads(g, s, k) == nodes_reads(g, s.subrange(0, k)),
    decreases k,
{
    if k > 0 {
        lemma_cluster_reads_prefix(g, s, k - 1);
        assert(s.subrange(0, k).drop_last() =~= s.subrange(0, k - 1));
    }
}

proof fn lemma_nodes_reads_append(g: Seq<Node>, a: Seq<usize>, b: Seq<usize>)
    ensures
        nodes_reads(g, a + b) == nodes_reads(g, a) + nodes_reads(g, b),
    decreases b.len(),
{
    if b.len() == 0 {
        assert(a + b =~= a);
        assert(nodes_reads(g, a) + nodes_reads(g, b) =~= nodes_reads(g, a));
    } else {
        lemma_nodes_reads_append(g, a, b.drop_last());
        assert((a + b).drop_last() =~= a + b.drop_last());
        assert((a + b).last() == b.last());
        assert(nodes_reads(g, a + b) =~= nodes_reads(g, a) + nodes_reads(g, b));
    }
}

/// Node lists with the same elements, as often, give the same reads, as often.
proof fn lemma_nodes_reads_permutation(g: Seq<Node>, s1: Seq<usize>, s2: Seq<usize>)
    requires
        s1.to_multiset() == s2.to_multiset(),
    ensures
        nodes_reads(g, s1).to_multiset() == nodes_reads(g, s2).to_multiset(),
    decreases s1.len(),
{
    broadcast use vstd::seq_lib::group_to_multiset_ensures, vstd::multiset::group_multiset_axioms, vstd::seq_lib::lemma_multiset_commutative;

    if s1.len() == 0 {
        assert(s1.to_multiset().len() == 0);
        assert(s2.to_multiset().len() == s2.len());
        assert(s2.len() == 0);
        assert(s1 =~= s2);
    } else {
        let x = s1.last();
        let t1 = s1.drop_last();
        assert(t1.push(x) =~= s1);
        assert(s1.to_multiset() =~= t1.to_multiset().insert(x));
        assert(s2.to_multiset().count(x) > 0);
        assert(s2.contains(x));
        let p = choose|p: int| 0 <= p < s2.len() && s2[p] == x;
        let t2 = s2.remove(p);
        assert(t2.to_multiset() =~= s2.to_multiset().remove(x));
        assert(t2.to_multiset() =~= t1.to_multiset());
        lemma_nodes_reads_permutation(g, t1, t2);
        let a = s2.subrange(0, p);
        let b = s2.subrange(p + 1, s2.len() as int);
        assert(s2 =~= a + seq![x] + b);
        assert(t2 =~= a + b);
        lemma_nodes_reads_append(g, a + seq![x], b);
        lemma_nodes_reads_append(g, a, seq![x]);
        lemma_nodes_reads_append(g, a, b);
        assert(seq![x].drop_last() =~= Seq::<usize>::empty());
        assert(seq![x].last() == x);
        assert(nodes_reads(g, Seq::<usize>::empty()) == Seq::<usize>::empty());
        assert(nodes_reads(g, seq![x]) == nodes_reads(g, Seq::<usize>::empty()) + node_reads(g[x as int]));
        assert(nodes_reads(g, seq![x]) =~= node_reads(g[x as int]));
        assert(nodes_reads(g, s2).to_multiset() =~= nodes_reads(g, t2).to_multiset().add(
            node_reads(g[x as int]).to_multiset(),
        ));
        assert(nodes_reads(g, s1).to_multiset() =~= nodes_reads(g, t1).to_multiset().add(
            node_reads(g[x as int]).to_multiset(),
        ));
    }
}

/// Two lists without repeats that hold the same elements are permutations.
proof fn lemma_same_elements(s1: Seq<usize>, s2: Seq<usize>)
    requires
        s1.no_duplicates(),
        s2.no_duplicates(),
        forall|v: usize| s1.contains(v) <==> s2.contains(v),
    ensures
        s1.to_multiset() == s2.to_multiset(),
{
    broadcast use vstd::seq_lib::group_to_multiset_ensures;

    s1.lemma_multiset_has_no_duplicates();
    s2.lemma_multiset_has_no_duplicates();
    assert(s1.to_multiset() =~= s2.to_multiset());
}

proof fn lemma_flat_nodes(gs: Seq<Seq<usize>>, n: int, k: int)
    requires
        crate::cluster::is_partition(gs, n),
        0 <= k <= gs.len(),
    ensures
        flat_nodes(gs, k).no_duplicates(),
        forall|v: usize|
            flat_nodes(gs, k).contains(v) <==> exists|i: int, l: int|
                0 <= i < k && 0 <= l < gs[i].len() && #[trigger] gs[i][l] == v,
    decreases k,
{
    if k > 0 {
        lemma_flat_nodes(gs, n, k - 1);
        let f = flat_nodes(gs, k - 1);
        let h = gs[k - 1];
        let f2 = flat_nodes(gs, k);
        assert(f2 == f + h);
        assert forall|v: usize| f2.contains(v) <==> exists|i: int, l: int|
            0 <= i < k && 0 <= l < gs[i].len() && #[trigger] gs[i][l] == v by {
            if f2.contains(v) {
                let t = choose|t: int| 0 <= t < f2.len() && f2[t] == v;
                if t >= f.len() {
                    assert(gs[k - 1][t - f.len()] == v);
                } else {
                    assert(f.contains(v));
                }
            }
            if exists|i: int, l: int| 0 <= i < k && 0 <= l < gs[i].len() && #[trigger] gs[i][l] == v {
                let (i, l) = choose|i: int, l: int| 0 <= i < k && 0 <= l < gs[i].len() && #[trigger] gs[i][l] == v;
                if i < k - 1 {
                    assert(f.contains(v));
                    let t = choose|t: int| 0 <= t < f.len() && f[t] == v;
                    assert(f2[t] == v);
                } else {
                    assert(f2[f.len() + l] == v);
                }
            }
        }
        assert forall|a: int, b: int| 0 <= a < f2.len() && 0 <= b < f2.len() && a != b implies f2[a] != f2[b] by {
            if a < f.len() && b < f.len() {
            } else if a >= f.len() && b >= f.len() {
                assert(h[a - f.len()] == f2[a] && h[b - f.len()] == f2[b]);
            } else {
                let (x, y) = if a < f.len() { (a, b) } else { (b, a) };
                assert(f.contains(f2[x]));
                if f2[x] == f2[y] {
                    let (i, l) = choose|i: int, l: int| 0 <= i < k - 1 && 0 <= l < gs[i].len() && #[trigger] gs[i][l] == f2[x];
                    assert(gs[k - 1][y - f.len()] == f2[y]);
                    assert(gs[i][l] == gs[k - 1][y - f.len()]);
                }
            }
        }
    }
}

proof fn lemma_map_reads_down(reads: Seq<(Umi, ReadFreq)>, g: Seq<Node>, dist: int, factor: int, k: int)
    requires
        locus_graph(reads, g, dist, factor),
        g.len() <= usize::MAX,
        0 <= k <= g.len(),
    ensures
        map_reads(reads, k) == nodes_reads(g, down_from(g.len() as int).subrange(0, k)),
    decreases k,
{
    if k > 0 {
        lemma_map_reads_down(reads, g, dist, factor, k - 1);
        let n = g.len() as int;
        let d = down_from(n).subrange(0, k);
        assert(d.drop_last() =~= down_from(n).subrange(0, k - 1));
        assert(d.last() == (n - k) as usize);
        assert(g[n - k].freq == reads[n - 1 - (n - k)].1);
        assert(node_reads(g[n - k]) == entry_reads(reads[k - 1]));
    }
}

/// In group mode each read of a position comes out exactly once: the reads
/// of the labelled clusters, taken together, are the reads held by the
/// position's UMIs, each as often as it is held there.
pub proof fn lemma_group_mode_keeps_each_read_once(
    reads: Seq<(Umi, ReadFreq)>,
    g: Seq<Node>,
    groups: Seq<Group>,
    out: Seq<LabeledGroup>,
    dist: int,
    factor: int,
    depth: nat,
)
    requires
        locus_graph(reads, g, dist, factor),
        g.len() <= usize::MAX,
        clustering(g, groups, depth),
        out.len() == groups.len(),
        forall|i: int|
            0 <= i < groups.len() ==> (#[trigger] out[i]).reads@ == cluster_reads(
                g,
                groups[i].nodes@,
                groups[i].nodes@.len() as int,
            ),
    ensures
        labeled_reads(out, out.len() as int).to_multiset() == map_reads(reads, reads.len() as int).to_multiset(),
{
    let gs = node_lists(groups);
    let n = g.len() as int;
    let m = groups.len() as int;
    assert forall|k: int| 0 <= k <= m implies labeled_reads(out, k) == nodes_reads(g, #[trigger] flat_nodes(gs, k)) by {
        lemma_labeled_flat(g, groups, out, k);
    }
    lemma_flat_nodes(gs, n, m);
    let dn = down_from(n);
    assert(dn.no_duplicates());
    assert forall|v: usize| flat_nodes(gs, m).contains(v) <==> dn.contains(v) by {
        if dn.contains(v) {
            let t = choose|t: int| 0 <= t < dn.len() && dn[t] == v;
            assert(holds_node(gs, v as int));
        }
        if flat_nodes(gs, m).contains(v) {
            let (i, l) = choose|i: int, l: int| 0 <= i < m && 0 <= l < gs[i].len() && #[trigger] gs[i][l] == v;
            assert(gs[i][l] < n);
            assert(dn[n - 1 - v] == v);
        }
    }
    lemma_same_elements(flat_nodes(gs, m), dn);
    lemma_nodes_reads_permutation(g, flat_nodes(gs, m), dn);
    lemma_map_reads_down(reads, g, dist, factor, n);
    assert(dn.subrange(0, n) =~= dn);
}

proof fn lemma_labeled_flat(g: Seq<Node>, groups: Seq<Group>, out: Seq<LabeledGroup>, k: int)
    requires
        0 <= k <= groups.len(),
        out.len() == groups.len(),
        forall|i: int|
            0 <= i < groups.len() ==> (#[trigger] out[i]).reads@ == cluster_reads(
                g,
                groups[i].nodes@,
                groups[i].nodes@.len() as int,
            ),
    ensures
        labeled_reads(out, k) == nodes_reads(g, flat_nodes(node_lists(groups), k)),
    decreases k,
{
    if k > 0 {
        let gs = node_lists(groups);
        lemma_labeled_flat(g, groups, out, k - 1);
        lemma_nodes_reads_append(g, flat_nodes(gs, k - 1), gs[k - 1]);
        lemma_cluster_reads_prefix(g, groups[k - 1].nodes@, groups[k - 1].nodes@.len() as int);
        assert(groups[k - 1].nodes@.subrange(0, groups[k - 1].nodes@.len() as int) =~= gs[k - 1]);
    }
}

proof fn lemma_members_contains(recs: Seq<Record>, cfg: Config, i: int, k: int)
    requires
        0 <= i < k <= recs.len(),
        k <= usize::MAX,
        kept(recs[i], cfg),
    ensures
        members(recs, cfg, key_pos(recs[i], cfg), key_umi(recs[i], cfg), k).contains(i as usize),
    decreases k,
{
    let p = key_pos(recs[i], cfg);
    let u = key_umi(recs[i], cfg);
    if i < k - 1 {
        lemma_members_contains(recs, cfg, i, k - 1);
        let prev = members(recs, cfg, p, u, k - 1);
        let t = choose|t: int| 0 <= t < prev.len() && prev[t] == i as usize;
        assert(members(recs, cfg, p, u, k)[t] == i as usize);
    } else {
        let cur = members(recs, cfg, p, u, k);
        assert(cur[cur.len() - 1] == i as usize);
    }
}

proof fn lemma_members_ascending(recs: Seq<Record>, cfg: Config, p: Position, u: Seq<u8>, k: int)
    requires
        0 <= k <= recs.len(),
        k <= usize::MAX,
    ensures
        forall|s: int, t: int|
            0 <= s < t < members(recs, cfg, p, u, k).len() ==> #[trigger] members(recs, cfg, p, u, k)[s]
                < #[trigger] members(recs, cfg, p, u, k)[t],
    decreases k,
{
    if k > 0 {
        lemma_members_ascending(recs, cfg, p, u, k - 1);
        crate::grouping::lemma_members_bound(recs, cfg, p, u, k - 1);
        let prev = members(recs, cfg, p, u, k - 1);
        let cur = members(recs, cfg, p, u, k);
        assert forall|s: int, t: int| 0 <= s < t < cur.len() implies #[trigger] cur[s] < #[trigger] cur[t] by {
            if t < prev.len() {
                assert(cur[s] == prev[s] && cur[t] == prev[t]);
            } else {
                assert(cur[s] == prev[s]);
            }
        }
    }
}

/// In group mode the grouping holds each read that passes the filters
/// exactly once, and no other read: every held index names a kept read,
/// every kept read is held, and no index is held twice.
pub proof fn lemma_group_mode_holds_each_kept_read_once(recs: Seq<Record>, cfg: Config, map: Seq<(Position, UmiMap)>)
    requires
        map_ok(recs, cfg, recs.len() as int, map),
        cfg.group_only,
        recs.len() <= usize::MAX,
    ensures
        forall|j: int, a: int, t: int|
            0 <= j < map.len() && 0 <= a < map[j].1@.len() && 0 <= t < entry_reads(map[j].1@[a]).len() ==> {
                let i = #[trigger] entry_reads(map[j].1@[a])[t] as int;
                0 <= i < recs.len() && kept(recs[i], cfg)
            },
        forall|i: int|
            0 <= i < recs.len() && kept(#[trigger] recs[i], cfg) ==> exists|j: int, a: int, t: int|
                0 <= j < map.len() && 0 <= a < map[j].1@.len() && 0 <= t < entry_reads(map[j].1@[a]).len()
                    && #[trigger] entry_reads(map[j].1@[a])[t] == i,
        forall|j: int, a: int, t: int, j2: int, a2: int, t2: int|
            0 <= j < map.len() && 0 <= a < map[j].1@.len() && 0 <= t < entry_reads(map[j].1@[a]).len() && 0 <= j2
                < map.len() && 0 <= a2 < map[j2].1@.len() && 0 <= t2 < entry_reads(map[j2].1@[a2]).len()
                && #[trigger] entry_reads(map[j].1@[a])[t] == #[trigger] entry_reads(map[j2].1@[a2])[t2] ==> j == j2 && a
                == a2 && t == t2,
{
    let n = recs.len() as int;
    assert forall|j: int, a: int| 0 <= j < map.len() && 0 <= a < map[j].1@.len() implies #[trigger] entry_reads(map[j].1@[a])
        == members(recs, cfg, map[j].0, map[j].1@[a].0@, n) by {
        assert(crate::grouping::entry_ok(recs, cfg, n, map[j].0, map[j].1@[a].0@, map[j].1@[a].1));
    }
    assert forall|j: int, a: int, t: int|
        0 <= j < map.len() && 0 <= a < map[j].1@.len() && 0 <= t < entry_reads(map[j].1@[a]).len() implies {
        let i = #[trigger] entry_reads(map[j].1@[a])[t] as int;
        0 <= i < recs.len() && kept(recs[i], cfg)
    } by {
        crate::grouping::lemma_members_bound(recs, cfg, map[j].0, map[j].1@[a].0@, n);
    }
    assert forall|i: int| 0 <= i < recs.len() && kept(#[trigger] recs[i], cfg) implies exists|j: int, a: int, t: int|
        0 <= j < map.len() && 0 <= a < map[j].1@.len() && 0 <= t < entry_reads(map[j].1@[a]).len()
            && #[trigger] entry_reads(map[j].1@[a])[t] == i by {
        assert(crate::grouping::has_entry(map, key_pos(recs[i], cfg), key_umi(recs[i], cfg)));
        let (j, a) = choose|j: int, a: int|
            0 <= j < map.len() && 0 <= a < map[j].1@.len() && map[j].0 == key_pos(recs[i], cfg)
                && #[trigger] map[j].1@[a].0@ == key_umi(recs[i], cfg);
        lemma_members_contains(recs, cfg, i, n);
        let m = members(recs, cfg, key_pos(recs[i], cfg), key_umi(recs[i], cfg), n);
        let t = choose|t: int| 0 <= t < m.len() && m[t] == i as usize;
        assert(entry_reads(map[j].1@[a])[t] == i);
    }
    assert forall|j: int, a: int, t: int, j2: int, a2: int, t2: int|
        0 <= j < map.len() && 0 <= a < map[j].1@.len() && 0 <= t < entry_reads(map[j].1@[a]).len() && 0 <= j2 < map.len()
            && 0 <= a2 < map[j2].1@.len() && 0 <= t2 < entry_reads(map[j2].1@[a2]).len()
            && #[trigger] entry_reads(map[j].1@[a])[t] == #[trigger] entry_reads(map[j2].1@[a2])[t2] implies j == j2 && a == a2 && t
        == t2 by {
        let p = map[j].0;
        let u = map[j].1@[a].0@;
        let p2 = map[j2].0;
        let u2 = map[j2].1@[a2].0@;
        crate::grouping::lemma_members_bound(recs, cfg, p, u, n);
        crate::grouping::lemma_members_bound(recs, cfg, p2, u2, n);
        let i = entry_reads(map[j].1@[a])[t] as int;
        assert(matches_key(recs[i], cfg, p, u));
        assert(matches_key(recs[i], cfg, p2, u2));
        lemma_pos_order(p, p2, p2);
        if j < j2 {
            assert(crate::position::pos_lt(map[j].0, map[j2].0));
        } else if j2 < j {
            assert(crate::position::pos_lt(map[j2].0, map[j].0));
        }
        if a < a2 {
            assert(map[j].1@[a].0@ != map[j].1@[a2].0@);
        } else if a2 < a {
            assert(map[j].1@[a2].0@ != map[j].1@[a].0@);
        }
        lemma_members_ascending(recs, cfg, p, u, n);
    }
}

} // verus!
