//! Clustering of the UMI graph at one position by greedy, depth-bounded
//! traversal from the most frequent UMIs.
use crate::graph::{connections_in_range, Node};
use vstd::prelude::*;

verus! {

/// A cluster of nodes (indices into the graph) that stand for one molecule.
/// `nodes[0]` is the seed; the traversal order follows.
#[derive(Debug)]
pub struct Group {
    pub nodes: Vec<usize>,
    /// Index into `nodes` of the most frequent member (the first on a tie).
    pub master_node: usize,
}

pub open spec fn freq_of(g: Seq<Node>, v: int) -> int {
    g[v].freq.freq as int
}

/// `v` comes no earlier than `s` in descending order of frequency, ties
/// broken by index.
pub open spec fn ranks_below(g: Seq<Node>, v: int, s: int) -> bool {
    freq_of(g, v) <= freq_of(g, s) && (v < s ==> freq_of(g, v) < freq_of(g, s))
}

/// `v` is reached from `s` along at most `h` edges.
pub open spec fn within(g: Seq<Node>, s: int, v: int, h: nat) -> bool
    decreases h,
{
    if h == 0 {
        v == s
    } else {
        within(g, s, v, (h - 1) as nat) || exists|u: int|
            0 <= u < g.len() && within(g, s, u, (h - 1) as nat) && #[trigger] g[u].connections@.contains(
                v as usize,
            )
    }
}

/// Some cluster holds node `v`.
pub open spec fn holds_node(gs: Seq<Seq<usize>>, v: int) -> bool {
    exists|i: int, k: int| 0 <= i < gs.len() && 0 <= k < gs[i].len() && #[trigger] gs[i][k] == v
}

/// The clusters' node lists partition the nodes `0..n`: each node stands in
/// exactly one cluster, exactly once.
pub open spec fn is_partition(gs: Seq<Seq<usize>>, n: int) -> bool {
    &&& forall|i: int, k: int| 0 <= i < gs.len() && 0 <= k < gs[i].len() ==> #[trigger] gs[i][k] < n
    &&& forall|v: int| 0 <= v < n ==> #[trigger] holds_node(gs, v)
    &&& forall|i: int, k: int, j: int, l: int|
        0 <= i < gs.len() && 0 <= k < gs[i].len() && 0 <= j < gs.len() && 0 <= l < gs[j].len()
            && #[trigger] gs[i][k] == #[trigger] gs[j][l] ==> i == j && k == l
}

/// The node lists of the groups.
pub open spec fn node_lists(groups: Seq<Group>) -> Seq<Seq<usize>> {
    groups.map_values(|grp: Group| grp.nodes@)
}

/// Each group is non-empty and its master is its most frequent member, the
/// first one on a tie.
pub open spec fn masters_ok(g: Seq<Node>, groups: Seq<Group>) -> bool {
    forall|i: int|
        0 <= i < groups.len() ==> {
            let grp = #[trigger] groups[i];
            &&& grp.nodes@.len() > 0
            &&& grp.master_node < grp.nodes@.len()
            &&& forall|k: int|
                0 <= k < grp.nodes@.len() ==> freq_of(g, #[trigger] grp.nodes@[k] as int) <= freq_of(
                    g,
                    grp.nodes@[grp.master_node as int] as int,
                )
            &&& forall|k: int|
                0 <= k < grp.master_node ==> freq_of(g, #[trigger] grp.nodes@[k] as int) < freq_of(
                    g,
                    grp.nodes@[grp.master_node as int] as int,
                )
        }
}

/// Seeds come in descending order of frequency: every node of a cluster, or
/// of a later one, ranks below the cluster's seed.
pub open spec fn seeds_ranked(g: Seq<Node>, gs: Seq<Seq<usize>>) -> bool {
    forall|i: int, j: int, k: int|
        0 <= i <= j < gs.len() && 0 <= k < gs[j].len() ==> #[trigger] ranks_below(
            g,
            gs[j][k] as int,
            gs[i][0] as int,
        )
}

/// Every member of a cluster lies within `depth` edges of the seed.
pub open spec fn members_reached(g: Seq<Node>, gs: Seq<Seq<usize>>, depth: nat) -> bool {
    forall|i: int, k: int|
        0 <= i < gs.len() && 0 <= k < gs[i].len() ==> #[trigger] within(
            g,
            gs[i][0] as int,
            gs[i][k] as int,
            depth,
        )
}

/// Every direct neighbour of a seed lies in that cluster or an earlier one.
pub open spec fn neighbours_absorbed(g: Seq<Node>, gs: Seq<Seq<usize>>) -> bool {
    forall|i: int, k: int|
        0 <= i < gs.len() && 0 <= k < g[gs[i][0] as int].connections@.len() ==> exists|j: int, l: int|
            0 <= j <= i && 0 <= l < gs[j].len() && #[trigger] gs[j][l]
                == #[trigger] g[gs[i][0] as int].connections@[k]
}

/// `v` lies `r` edges beyond `u` along some path.
pub open spec fn hops(g: Seq<Node>, u: int, v: int, r: nat) -> bool
    decreases r,
{
    if r == 0 {
        v == u
    } else {
        exists|w: int|
            0 <= w < g.len() && hops(g, u, w, (r - 1) as nat) && #[trigger] g[w].connections@.contains(
                v as usize,
            )
    }
}

/// Place `l` of cluster `i` holds a direct neighbour of its seed.
pub open spec fn joined_neighbour(g: Seq<Node>, gs: Seq<Seq<usize>>, i: int, l: int) -> bool {
    0 < l < gs[i].len() && g[gs[i][0] as int].connections@.contains(gs[i][l])
}

/// `v` lies fewer than `depth` edges beyond a neighbour of the seed that
/// joined cluster `i`.
pub open spec fn sourced(g: Seq<Node>, gs: Seq<Seq<usize>>, i: int, v: int, depth: nat) -> bool {
    exists|l: int, r: nat| joined_neighbour(g, gs, i, l) && r < depth && #[trigger] hops(g, gs[i][l] as int, v, r)
}

/// Every member of a cluster but its seed is a direct neighbour of the seed,
/// or lies fewer than `depth` edges beyond one that joined the cluster.
pub open spec fn members_sourced(g: Seq<Node>, gs: Seq<Seq<usize>>, depth: nat) -> bool {
    forall|i: int, k: int| 0 <= i < gs.len() && 0 < k < gs[i].len() ==> #[trigger] sourced(g, gs, i, gs[i][k] as int, depth)
}

/// Whatever lies fewer than `depth` edges beyond a direct neighbour of the
/// seed that joined a cluster is in that cluster or an earlier one.
pub open spec fn expansion_absorbed(g: Seq<Node>, gs: Seq<Seq<usize>>, depth: nat) -> bool {
    forall|i: int, l: int, v: int, r: nat|
        0 <= i < gs.len() && joined_neighbour(g, gs, i, l) && r < depth && 0 <= v < g.len() && #[trigger] hops(
            g,
            gs[i][l] as int,
            v,
            r,
        ) ==> exists|j: int, m: int| 0 <= j <= i && 0 <= m < gs[j].len() && #[trigger] gs[j][m] == v
}

/// `v` lies `r` edges beyond one of the nodes `f`.
pub open spec fn reach_from(g: Seq<Node>, f: Seq<usize>, v: int, r: nat) -> bool {
    exists|l: int| 0 <= l < f.len() && #[trigger] hops(g, f[l] as int, v, r)
}

/// The nodes found beyond the joined neighbours of finished clusters are
/// placed no later than their cluster.
pub open spec fn expansion_placed(
    g: Seq<Node>,
    seen: Seq<bool>,
    owner: Seq<(int, int)>,
    gs: Seq<Seq<usize>>,
    depth: nat,
) -> bool {
    forall|i: int, l: int, v: int, r: nat|
        0 <= i < gs.len() && joined_neighbour(g, gs, i, l) && r < depth && 0 <= v < g.len() && #[trigger] hops(
            g,
            gs[i][l] as int,
            v,
            r,
        ) ==> seen[v] && owner[v].0 <= i
}

proof fn lemma_hops_next(g: Seq<Node>, u: int, w: int, v: int, r: nat)
    requires
        0 <= w < g.len(),
        hops(g, u, w, r),
        g[w].connections@.contains(v as usize),
    ensures
        hops(g, u, v, r + 1),
{
    assert(((r + 1) - 1) as nat == r);
}

/// Appending the connections of `c`, `r` edges beyond `f`, keeps every
/// candidate `r + 1` edges beyond `f`.
proof fn lemma_reach_append(g: Seq<Node>, f: Seq<usize>, c: int, r: nat, old_c: Seq<usize>)
    requires
        connections_in_range(g),
        0 <= c < g.len(),
        reach_from(g, f, c, r),
        forall|q: int| 0 <= q < old_c.len() ==> #[trigger] reach_from(g, f, old_c[q] as int, r + 1),
    ensures
        forall|q: int|
            0 <= q < (old_c + g[c].connections@).len() ==> #[trigger] reach_from(
                g,
                f,
                (old_c + g[c].connections@)[q] as int,
                r + 1,
            ),
{
    let l = choose|l: int| 0 <= l < f.len() && #[trigger] hops(g, f[l] as int, c, r);
    assert forall|q: int| 0 <= q < (old_c + g[c].connections@).len() implies #[trigger] reach_from(
        g,
        f,
        (old_c + g[c].connections@)[q] as int,
        r + 1,
    ) by {
        if q >= old_c.len() {
            let v = g[c].connections@[q - old_c.len()];
            assert(g[c].connections@.contains(v));
            assert(v as int as usize == v);
            lemma_hops_next(g, f[l] as int, c, v as int, r);
        }
    }
}

// ---- bookkeeping of the traversal ----

/// Slot `slot` (cluster, place) holds node `v`, among the finished clusters
/// `gs` or the cluster `cur` being built after them.
pub open spec fn slot_ok(gs: Seq<Seq<usize>>, cur: Seq<usize>, slot: (int, int), v: int) -> bool {
    ||| (0 <= slot.0 < gs.len() && 0 <= slot.1 < gs[slot.0].len() && gs[slot.0][slot.1] == v)
    ||| (slot.0 == gs.len() && 0 <= slot.1 < cur.len() && cur[slot.1] == v)
}

/// Seen nodes are exactly the placed ones, each at the slot `owner` names.
pub open spec fn placed(
    n: int,
    seen: Seq<bool>,
    owner: Seq<(int, int)>,
    gs: Seq<Seq<usize>>,
    cur: Seq<usize>,
) -> bool {
    &&& seen.len() == n
    &&& owner.len() == n
    &&& forall|i: int, k: int|
        0 <= i < gs.len() && 0 <= k < gs[i].len() ==> {
            &&& #[trigger] gs[i][k] < n
            &&& seen[gs[i][k] as int]
            &&& owner[gs[i][k] as int] == (i, k)
        }
    &&& forall|k: int|
        0 <= k < cur.len() ==> {
            &&& #[trigger] cur[k] < n
            &&& seen[cur[k] as int]
            &&& owner[cur[k] as int] == (gs.len() as int, k)
        }
    &&& forall|v: int| 0 <= v < n && #[trigger] seen[v] ==> slot_ok(gs, cur, owner[v], v)
}

/// Order facts of the traversal so far.
pub open spec fn ranked(g: Seq<Node>, seen: Seq<bool>, gs: Seq<Seq<usize>>, cur: Seq<usize>) -> bool {
    &&& forall|i: int| 0 <= i < gs.len() ==> #[trigger] gs[i].len() > 0
    &&& forall|i: int, v: int|
        0 <= i < gs.len() && 0 <= v < g.len() && !seen[v] ==> #[trigger] ranks_below(
            g,
            v,
            gs[i][0] as int,
        )
    &&& seeds_ranked(g, gs)
    &&& forall|i: int, k: int|
        0 <= i < gs.len() && 0 <= k < cur.len() ==> #[trigger] ranks_below(
            g,
            cur[k] as int,
            gs[i][0] as int,
        )
    &&& cur.len() > 0 ==> {
        &&& forall|v: int| 0 <= v < g.len() && !seen[v] ==> #[trigger] ranks_below(g, v, cur[0] as int)
        &&& forall|k: int| 0 <= k < cur.len() ==> #[trigger] ranks_below(g, cur[k] as int, cur[0] as int)
    }
}

/// The direct neighbours of each finished seed are placed no later than its
/// cluster.
pub open spec fn layer_one_placed(
    g: Seq<Node>,
    seen: Seq<bool>,
    owner: Seq<(int, int)>,
    gs: Seq<Seq<usize>>,
) -> bool {
    forall|i: int, k: int|
        0 <= i < gs.len() && 0 <= k < g[gs[i][0] as int].connections@.len() ==> {
            let c = #[trigger] g[gs[i][0] as int].connections@[k] as int;
            seen[c] && owner[c].0 <= i
        }
}

pub open spec fn count_unseen(s: Seq<bool>, k: int) -> nat
    decreases k,
{
    if k <= 0 {
        0
    } else {
        count_unseen(s, k - 1) + if !s[k - 1] {
            1nat
        } else {
            0nat
        }
    }
}

proof fn lemma_mark_seen(s: Seq<bool>, v: int, k: int)
    requires
        0 <= v < s.len(),
        !s[v],
        0 <= k <= s.len(),
    ensures
        count_unseen(s.update(v, true), k) + (if v < k {
            1int
        } else {
            0int
        }) == count_unseen(s, k),
    decreases k,
{
    if k > 0 {
        lemma_mark_seen(s, v, k - 1);
    }
}

proof fn lemma_within_mono(g: Seq<Node>, s: int, v: int, h: nat, h2: nat)
    requires
        within(g, s, v, h),
        h <= h2,
    ensures
        within(g, s, v, h2),
    decreases h2 - h,
{
    if h < h2 {
        assert(within(g, s, v, (h + 1) as nat));
        lemma_within_mono(g, s, v, (h + 1) as nat, h2);
    }
}

proof fn lemma_within_step(g: Seq<Node>, s: int, u: int, k: int, h: nat)
    requires
        0 <= u < g.len(),
        within(g, s, u, h),
        0 <= k < g[u].connections@.len(),
    ensures
        within(g, s, g[u].connections@[k] as int, h + 1),
{
    let c = g[u].connections@[k];
    let hh = (h + 1) as nat;
    assert((hh - 1) as nat == h);
    assert(g[u].connections@.contains((c as int) as usize));
    assert(0 <= u < g.len() && within(g, s, u, (hh - 1) as nat) && g[u].connections@.contains(
        (c as int) as usize,
    ));
    assert(within(g, s, c as int, hh));
}

/// Appending the connections of `u` keeps every candidate within `h + 1`
/// edges of the seed.
proof fn lemma_extend_candidates(g: Seq<Node>, s: int, u: int, h: nat, old_c: Seq<usize>)
    requires
        connections_in_range(g),
        0 <= u < g.len(),
        within(g, s, u, h),
        forall|q: int| 0 <= q < old_c.len() ==> #[trigger] old_c[q] < g.len() && within(g, s, old_c[q] as int, h + 1),
    ensures
        forall|q: int|
            0 <= q < (old_c + g[u].connections@).len() ==> #[trigger] (old_c + g[u].connections@)[q]
                < g.len() && within(g, s, (old_c + g[u].connections@)[q] as int, h + 1),
{
    assert forall|q: int| 0 <= q < (old_c + g[u].connections@).len() implies #[trigger] (old_c
        + g[u].connections@)[q] < g.len() && within(
        g,
        s,
        (old_c + g[u].connections@)[q] as int,
        h + 1,
    ) by {
        if q >= old_c.len() {
            lemma_within_step(g, s, u, q - old_c.len(), h);
        }
    }
}

proof fn lemma_take_node(
    g: Seq<Node>,
    seen: Seq<bool>,
    owner: Seq<(int, int)>,
    gs: Seq<Seq<usize>>,
    cur: Seq<usize>,
    c: usize,
    depth: nat,
)
    requires
        expansion_placed(g, seen, owner, gs, depth),
        connections_in_range(g),
        placed(g.len() as int, seen, owner, gs, cur),
        ranked(g, seen, gs, cur),
        layer_one_placed(g, seen, owner, gs),
        c < g.len(),
        !seen[c as int],
        cur.len() == 0 ==> forall|v: int| 0 <= v < g.len() && !seen[v] ==> ranks_below(g, v, c as int),
    ensures
        placed(
            g.len() as int,
            seen.update(c as int, true),
            owner.update(c as int, (gs.len() as int, cur.len() as int)),
            gs,
            cur.push(c),
        ),
        ranked(g, seen.update(c as int, true), gs, cur.push(c)),
        layer_one_placed(g, seen.update(c as int, true), owner.update(c as int, (gs.len() as int, cur.len() as int)), gs),
        expansion_placed(
            g,
            seen.update(c as int, true),
            owner.update(c as int, (gs.len() as int, cur.len() as int)),
            gs,
            depth,
        ),
{
    let seen2 = seen.update(c as int, true);
    let owner2 = owner.update(c as int, (gs.len() as int, cur.len() as int));
    let cur2 = cur.push(c);
    let n = g.len() as int;
    assert forall|v: int| 0 <= v < n && #[trigger] seen2[v] implies slot_ok(gs, cur2, owner2[v], v) by {
        if v != c as int {
            assert(slot_ok(gs, cur, owner[v], v));
        } else {
            assert(cur2[cur.len() as int] == c);
        }
    }
    assert forall|k: int| 0 <= k < cur2.len() implies {
        &&& #[trigger] cur2[k] < n
        &&& seen2[cur2[k] as int]
        &&& owner2[cur2[k] as int] == (gs.len() as int, k)
    } by {
        if k < cur.len() {
            assert(cur2[k] == cur[k]);
        }
    }
    assert forall|i: int, k: int|
        0 <= i < gs.len() && 0 <= k < cur2.len() implies #[trigger] ranks_below(
        g,
        cur2[k] as int,
        gs[i][0] as int,
    ) by {
        if k < cur.len() {
            assert(cur2[k] == cur[k]);
        } else {
            assert(ranks_below(g, c as int, gs[i][0] as int));
        }
    }
    assert forall|i: int, k: int|
        0 <= i < gs.len() && 0 <= k < g[gs[i][0] as int].connections@.len() implies {
        let d = #[trigger] g[gs[i][0] as int].connections@[k] as int;
        seen2[d] && owner2[d].0 <= i
    } by {
        let d = g[gs[i][0] as int].connections@[k] as int;
        assert(seen[d] && owner[d].0 <= i);
        assert(d != c as int);
    }
    assert forall|i: int, l: int, v: int, r: nat|
        0 <= i < gs.len() && joined_neighbour(g, gs, i, l) && r < depth && 0 <= v < g.len() && #[trigger] hops(
            g,
            gs[i][l] as int,
            v,
            r,
        ) implies seen2[v] && owner2[v].0 <= i by {
        assert(seen[v] && owner[v].0 <= i);
    }
    if cur.len() > 0 {
        assert(ranks_below(g, c as int, cur[0] as int));
        assert forall|k: int| 0 <= k < cur2.len() implies #[trigger] ranks_below(
            g,
            cur2[k] as int,
            cur2[0] as int,
        ) by {
            if k < cur.len() {
                assert(cur2[k] == cur[k]);
            }
        }
    }
}

proof fn lemma_close(
    g: Seq<Node>,
    seen: Seq<bool>,
    owner: Seq<(int, int)>,
    gs: Seq<Seq<usize>>,
    cur: Seq<usize>,
    f: Seq<usize>,
    depth: nat,
)
    requires
        depth >= 1,
        connections_in_range(g),
        members_sourced(g, gs, depth),
        expansion_placed(g, seen, owner, gs, depth),
        cur.len() >= f.len() + 1,
        forall|q: int|
            0 <= q < f.len() ==> cur[q + 1] == #[trigger] f[q] && g[cur[0] as int].connections@.contains(f[q]),
        forall|k: int|
            f.len() + 1 <= k < cur.len() ==> !g[cur[0] as int].connections@.contains(#[trigger] cur[k])
                && exists|l: int, r: nat| 0 <= l < f.len() && r < depth && #[trigger] hops(g, f[l] as int, cur[k] as int, r),
        forall|l: int, v: int, r: nat|
            0 <= l < f.len() && r < depth && 0 <= v < g.len() && #[trigger] hops(g, f[l] as int, v, r) ==> seen[v],
        placed(g.len() as int, seen, owner, gs, cur),
        ranked(g, seen, gs, cur),
        layer_one_placed(g, seen, owner, gs),
        cur.len() > 0,
        cur[0] < g.len(),
        forall|k: int|
            0 <= k < g[cur[0] as int].connections@.len() ==> seen[#[trigger] g[cur[0] as int].connections@[k] as int],
    ensures
        placed(g.len() as int, seen, owner, gs.push(cur), Seq::empty()),
        ranked(g, seen, gs.push(cur), Seq::empty()),
        layer_one_placed(g, seen, owner, gs.push(cur)),
        members_sourced(g, gs.push(cur), depth),
        expansion_placed(g, seen, owner, gs.push(cur), depth),
{
    let gs2 = gs.push(cur);
    let n = g.len() as int;
    assert forall|v: int| 0 <= v < n && #[trigger] seen[v] implies slot_ok(gs2, Seq::empty(), owner[v], v) by {
        assert(slot_ok(gs, cur, owner[v], v));
        if owner[v].0 < gs.len() {
            assert(gs2[owner[v].0] == gs[owner[v].0]);
        }
    }
    assert forall|i: int, k: int| 0 <= i < gs2.len() && 0 <= k < gs2[i].len() implies {
        &&& #[trigger] gs2[i][k] < n
        &&& seen[gs2[i][k] as int]
        &&& owner[gs2[i][k] as int] == (i, k)
    } by {
        if i < gs.len() {
            assert(gs2[i] == gs[i]);
        }
    }
    assert forall|i: int, j: int, k: int|
        0 <= i <= j < gs2.len() && 0 <= k < gs2[j].len() implies #[trigger] ranks_below(
        g,
        gs2[j][k] as int,
        gs2[i][0] as int,
    ) by {
        if j < gs.len() {
            assert(gs2[j] == gs[j]);
            assert(gs2[i] == gs[i]);
        } else if i < gs.len() {
            assert(gs2[i] == gs[i]);
        }
    }
    assert forall|i: int, v: int| 0 <= i < gs2.len() && 0 <= v < g.len() && !seen[v] implies #[trigger] ranks_below(
        g,
        v,
        gs2[i][0] as int,
    ) by {
        if i < gs.len() {
            assert(gs2[i] == gs[i]);
        }
    }
    assert forall|i: int| 0 <= i < gs2.len() implies #[trigger] gs2[i].len() > 0 by {
        if i < gs.len() {
            assert(gs2[i] == gs[i]);
        }
    }
    assert forall|i: int, k: int|
        0 <= i < gs2.len() && 0 <= k < g[gs2[i][0] as int].connections@.len() implies {
        let c = #[trigger] g[gs2[i][0] as int].connections@[k] as int;
        seen[c] && owner[c].0 <= i
    } by {
        if i < gs.len() {
            assert(gs2[i] == gs[i]);
        } else {
            let c = g[cur[0] as int].connections@[k] as int;
            assert(seen[c]);
            assert(slot_ok(gs, cur, owner[c], c));
        }
    }
    let i0 = gs.len() as int;
    assert(gs2[i0] == cur);
    assert forall|i: int, k: int| 0 <= i < gs2.len() && 0 < k < gs2[i].len() implies #[trigger] sourced(
        g,
        gs2,
        i,
        gs2[i][k] as int,
        depth,
    ) by {
        if i < i0 {
            assert(gs2[i] == gs[i]);
            assert(sourced(g, gs, i, gs[i][k] as int, depth));
            let (l, r) = choose|l: int, r: nat| joined_neighbour(g, gs, i, l) && r < depth && #[trigger] hops(g, gs[i][l] as int, gs[i][k] as int, r);
            assert(joined_neighbour(g, gs2, i, l) && hops(g, gs2[i][l] as int, gs2[i][k] as int, r));
        } else if k <= f.len() {
            assert(cur[k] == f[k - 1]);
            assert(joined_neighbour(g, gs2, i, k));
            assert(hops(g, gs2[i][k] as int, gs2[i][k] as int, 0));
        } else {
            let (l, r) = choose|l: int, r: nat| 0 <= l < f.len() && r < depth && #[trigger] hops(g, f[l] as int, cur[k] as int, r);
            assert(cur[l + 1] == f[l]);
            assert(joined_neighbour(g, gs2, i, l + 1));
            assert(hops(g, gs2[i][l + 1] as int, gs2[i][k] as int, r));
        }
    }
    assert forall|i: int, l: int, v: int, r: nat|
        0 <= i < gs2.len() && joined_neighbour(g, gs2, i, l) && r < depth && 0 <= v < g.len() && #[trigger] hops(
            g,
            gs2[i][l] as int,
            v,
            r,
        ) implies seen[v] && owner[v].0 <= i by {
        if i < i0 {
            assert(gs2[i] == gs[i]);
            assert(joined_neighbour(g, gs, i, l));
        } else {
            if l > f.len() {
                assert(!g[cur[0] as int].connections@.contains(cur[l]));
            }
            assert(cur[l] == f[l - 1]);
            assert(hops(g, f[l - 1] as int, v, r));
            assert(seen[v]);
            assert(slot_ok(gs, cur, owner[v], v));
        }
    }
}

fn append_all(dst: &mut Vec<usize>, src: &Vec<usize>)
    ensures
        final(dst)@ == old(dst)@ + src@,
{
    let mut i: usize = 0;
    while i < src.len()
        invariant
            i <= src@.len(),
            dst@ == old(dst)@ + src@.subrange(0, i as int),
        decreases src@.len() - i,
    {
        dst.push(src[i]);
        i = i + 1;
        assert(src@.subrange(0, i as int) == src@.subrange(0, i - 1 as int).push(src@[i - 1]));
    }
    assert(src@.subrange(0, src@.len() as int) == src@);
}

/// The unseen node that comes first in descending order of frequency (ties
/// by index), if any is left.
fn next_seed(graph: &Vec<Node>, seen: &Vec<bool>) -> (r: Option<usize>)
    requires
        seen@.len() == graph@.len(),
    ensures
        r is None ==> forall|v: int| 0 <= v < seen@.len() ==> seen@[v],
        r matches Some(x) ==> {
            &&& x < seen@.len()
            &&& !seen@[x as int]
            &&& forall|v: int| 0 <= v < seen@.len() && !seen@[v] ==> ranks_below(graph@, v, x as int)
        },
{
    let n = graph.len();
    let mut best: Option<usize> = None;
    let mut i: usize = 0;
    while i < n
        invariant
            n == graph@.len() == seen@.len(),
            i <= n,
            best is None ==> forall|v: int| 0 <= v < i ==> seen@[v],
            best matches Some(b) ==> {
                &&& b < i
                &&& !seen@[b as int]
                &&& forall|v: int| 0 <= v < i && !seen@[v] ==> ranks_below(graph@, v, b as int)
            },
        decreases n - i,
    {
        if !seen[i] {
            match best {
                None => {
                    best = Some(i);
                },
                Some(b) => {
                    if graph[i].freq.freq > graph[b].freq.freq {
                        best = Some(i);
                    }
                },
            }
        }
        i = i + 1;
    }
    best
}

/// Index in `members` of the most frequent node, the first one on a tie.
fn master_of(graph: &Vec<Node>, members: &Vec<usize>) -> (m: usize)
    requires
        members@.len() > 0,
        forall|k: int| 0 <= k < members@.len() ==> #[trigger] members@[k] < graph@.len(),
    ensures
        m < members@.len(),
        forall|k: int|
            0 <= k < members@.len() ==> freq_of(graph@, #[trigger] members@[k] as int) <= freq_of(
                graph@,
                members@[m as int] as int,
            ),
        forall|k: int|
            0 <= k < m ==> freq_of(graph@, #[trigger] members@[k] as int) < freq_of(
                graph@,
                members@[m as int] as int,
            ),
{
    let mut m: usize = 0;
    let mut k: usize = 1;
    while k < members.len()
        invariant
            members@.len() > 0,
            forall|q: int| 0 <= q < members@.len() ==> #[trigger] members@[q] < graph@.len(),
            m < k <= members@.len(),
            forall|q: int|
                0 <= q < k ==> freq_of(graph@, #[trigger] members@[q] as int) <= freq_of(
                    graph@,
                    members@[m as int] as int,
                ),
            forall|q: int|
                0 <= q < m ==> freq_of(graph@, #[trigger] members@[q] as int) < freq_of(
                    graph@,
                    members@[m as int] as int,
                ),
        decreases members@.len() - k,
    {
        if graph[members[k]].freq.freq > graph[members[m]].freq.freq {
            m = k;
        }
        k = k + 1;
    }
    m
}

/// Everything the cluster resolver promises of its result.
pub open spec fn clustering(g: Seq<Node>, groups: Seq<Group>, depth: nat) -> bool {
    let gs = node_lists(groups);
    &&& is_partition(gs, g.len() as int)
    &&& masters_ok(g, groups)
    &&& seeds_ranked(g, gs)
    &&& members_reached(g, gs, depth)
    &&& neighbours_absorbed(g, gs)
    &&& members_sourced(g, gs, depth)
    &&& expansion_absorbed(g, gs, depth)
}

/// Resolves the graph into clusters. Seeds are taken in descending order of
/// frequency (ties by index) among the nodes not yet assigned; a seed takes
/// its unassigned direct neighbours, then for `allowed_network_depth - 1`
/// further rounds the unassigned nodes among the neighbours of the previous
/// round's candidates. No node is assigned twice. A cluster lists its seed,
/// then its nodes in the order they were taken.
pub fn determine_umi(graph: &Vec<Node>, allowed_network_depth: usize) -> (groups: Vec<Group>)
    requires
        connections_in_range(graph@),
        allowed_network_depth >= 1,
    ensures
        clustering(graph@, groups@, allowed_network_depth as nat),
{
    let n = graph.len();
    let depth = allowed_network_depth;
    let ghost g = graph@;
    let mut seen: Vec<bool> = Vec::new();
    let mut t: usize = 0;
    while t < n
        invariant
            seen@.len() == t,
            t <= n,
            forall|v: int| 0 <= v < t ==> !seen@[v],
        decreases n - t,
    {
        seen.push(false);
        t = t + 1;
    }
    let mut groups: Vec<Group> = Vec::new();
    let ghost mut owner: Seq<(int, int)> = Seq::new(n as nat, |v: int| (0int, 0int));
    let ghost mut gs: Seq<Seq<usize>> = Seq::empty();
    loop
        invariant
            n == g.len(),
            g == graph@,
            connections_in_range(g),
            depth >= 1,
            placed(n as int, seen@, owner, gs, Seq::empty()),
            ranked(g, seen@, gs, Seq::empty()),
            layer_one_placed(g, seen@, owner, gs),
            expansion_placed(g, seen@, owner, gs, depth as nat),
            members_sourced(g, gs, depth as nat),
            groups@.len() == gs.len(),
            forall|i: int| 0 <= i < gs.len() ==> (#[trigger] groups@[i]).nodes@ == gs[i],
            masters_ok(g, groups@),
            members_reached(g, gs, depth as nat),
        ensures
            forall|v: int| 0 <= v < n ==> seen@[v],
        decreases count_unseen(seen@, n as int),
    {
        let x = match next_seed(graph, &seen) {
            None => break,
            Some(x) => x,
        };
        let ghost c0 = count_unseen(seen@, n as int);
        let mut cur: Vec<usize> = Vec::new();
        proof {
            lemma_take_node(g, seen@, owner, gs, cur@, x, depth as nat);
            lemma_mark_seen(seen@, x as int, n as int);
            lemma_within_mono(g, x as int, x as int, 0, depth as nat);
        }
        seen.set(x, true);
        cur.push(x);
        proof {
            owner = owner.update(x as int, (gs.len() as int, 0int));
        }
        // Direct neighbours of the seed.
        let conns = &graph[x].connections;
        let mut frontier: Vec<usize> = Vec::new();
        let mut k: usize = 0;
        while k < conns.len()
            invariant
                n == g.len(),
                g == graph@,
                connections_in_range(g),
                depth >= 1,
                x < n,
                conns@ == g[x as int].connections@,
                k <= conns@.len(),
                placed(n as int, seen@, owner, gs, cur@),
                ranked(g, seen@, gs, cur@),
                layer_one_placed(g, seen@, owner, gs),
                expansion_placed(g, seen@, owner, gs, depth as nat),
                cur@ == seq![x] + frontier@,
                forall|q: int| 0 <= q < frontier@.len() ==> conns@.contains(#[trigger] frontier@[q]),
                forall|q: int| 0 <= q < cur@.len() ==> #[trigger] within(g, x as int, cur@[q] as int, depth as nat),
                forall|q: int| 0 <= q < frontier@.len() ==> #[trigger] frontier@[q] < n && within(g, x as int, frontier@[q] as int, 1),
                forall|q: int| 0 <= q < k ==> seen@[#[trigger] conns@[q] as int],
                count_unseen(seen@, n as int) < c0,
            decreases conns@.len() - k,
        {
            let c = conns[k];
            proof {
                lemma_within_mono(g, x as int, x as int, 0, 0);
                lemma_within_step(g, x as int, x as int, k as int, 0);
            }
            if !seen[c] {
                proof {
                    lemma_take_node(g, seen@, owner, gs, cur@, c, depth as nat);
                    lemma_mark_seen(seen@, c as int, n as int);
                    lemma_within_mono(g, x as int, c as int, 1, depth as nat);
                }
                seen.set(c, true);
                proof {
                    owner = owner.update(c as int, (gs.len() as int, cur@.len() as int));
                }
                cur.push(c);
                frontier.push(c);
                assert(conns@[k as int] == c);
            }
            k = k + 1;
        }
        let ghost f = frontier@;
        // Candidates of the next round: the neighbours of the nodes just taken.
        let mut cands: Vec<usize> = Vec::new();
        k = 0;
        while k < frontier.len()
            invariant
                n == g.len(),
                g == graph@,
                connections_in_range(g),
                k <= frontier@.len(),
                f == frontier@,
                cur@ == seq![x] + f,
                forall|q: int| 0 <= q < frontier@.len() ==> #[trigger] frontier@[q] < n && within(g, x as int, frontier@[q] as int, 1),
                forall|q: int| 0 <= q < cands@.len() ==> #[trigger] cands@[q] < n && within(g, x as int, cands@[q] as int, 2),
                forall|q: int| 0 <= q < cands@.len() ==> #[trigger] reach_from(g, f, cands@[q] as int, 1),
                forall|q: int, e: int|
                    0 <= q < k && 0 <= e < g[f[q] as int].connections@.len() ==> cands@.contains(
                        #[trigger] g[f[q] as int].connections@[e],
                    ),
            decreases frontier@.len() - k,
        {
            let u = frontier[k];
            proof {
                lemma_extend_candidates(g, x as int, u as int, 1, cands@);
                assert(hops(g, f[k as int] as int, u as int, 0));
                assert(reach_from(g, f, u as int, 0));
                lemma_reach_append(g, f, u as int, 0, cands@);
            }
            let ghost before = cands@;
            append_all(&mut cands, &graph[u].connections);
            proof {
                assert(cands@ == before + g[u as int].connections@);
                assert forall|q: int| 0 <= q < cands@.len() implies #[trigger] reach_from(g, f, cands@[q] as int, 1) by {
                    assert(cands@[q] == (before + g[u as int].connections@)[q]);
                }
                assert forall|q: int, e: int|
                    0 <= q < k + 1 && 0 <= e < g[f[q] as int].connections@.len() implies cands@.contains(
                    #[trigger] g[f[q] as int].connections@[e],
                ) by {
                    if q < k {
                        let w = g[f[q] as int].connections@[e];
                        let p = choose|p: int| 0 <= p < before.len() && before[p] == w;
                        assert(cands@[p] == w);
                    } else {
                        assert(cands@[before.len() + e] == g[f[q] as int].connections@[e]);
                    }
                }
            }
            k = k + 1;
        }
        proof {
            assert forall|l: int, v: int|
                0 <= l < f.len() && 0 <= v < n && #[trigger] hops(g, f[l] as int, v, 1) implies cands@.contains(v as usize) by {
                let w = choose|w: int|
                    0 <= w < g.len() && hops(g, f[l] as int, w, 0) && #[trigger] g[w].connections@.contains(v as usize);
                let e = choose|e: int| 0 <= e < g[w].connections@.len() && g[w].connections@[e] == v as usize;
                assert(g[f[l] as int].connections@[e] == v as usize);
            }
            assert forall|l: int, v: int|
                0 <= l < f.len() && 0 <= v < n && #[trigger] hops(g, f[l] as int, v, 0) implies seen@[v] by {
                assert(cur@[l + 1] == f[l]);
            }
        }
        let mut round: usize = 1;
        while round < depth
            invariant
                n == g.len(),
                g == graph@,
                connections_in_range(g),
                1 <= round <= depth,
                x < n,
                placed(n as int, seen@, owner, gs, cur@),
                ranked(g, seen@, gs, cur@),
                layer_one_placed(g, seen@, owner, gs),
                expansion_placed(g, seen@, owner, gs, depth as nat),
                cur@.len() > 0,
                cur@[0] == x,
                cur@.len() >= f.len() + 1,
                forall|q: int|
                    0 <= q < f.len() ==> cur@[q + 1] == #[trigger] f[q] && g[cur@[0] as int].connections@.contains(f[q]),
                forall|q: int|
                    f.len() + 1 <= q < cur@.len() ==> !g[cur@[0] as int].connections@.contains(#[trigger] cur@[q])
                        && exists|l: int, r: nat| 0 <= l < f.len() && r < depth && #[trigger] hops(g, f[l] as int, cur@[q] as int, r),
                forall|q: int| 0 <= q < cur@.len() ==> #[trigger] within(g, x as int, cur@[q] as int, depth as nat),
                forall|q: int| 0 <= q < cands@.len() ==> #[trigger] cands@[q] < n && within(g, x as int, cands@[q] as int, (round + 1) as nat),
                forall|q: int| 0 <= q < cands@.len() ==> #[trigger] reach_from(g, f, cands@[q] as int, round as nat),
                forall|l: int, v: int, r: nat|
                    0 <= l < f.len() && r < round && 0 <= v < n && #[trigger] hops(g, f[l] as int, v, r) ==> seen@[v],
                forall|l: int, v: int|
                    0 <= l < f.len() && 0 <= v < n && #[trigger] hops(g, f[l] as int, v, round as nat) ==> cands@.contains(v as usize),
                forall|q: int| 0 <= q < g[x as int].connections@.len() ==> seen@[#[trigger] g[x as int].connections@[q] as int],
                count_unseen(seen@, n as int) < c0,
            decreases depth - round,
        {
            let mut next: Vec<usize> = Vec::new();
            let mut k2: usize = 0;
            while k2 < cands.len()
                invariant
                    n == g.len(),
                    g == graph@,
                    connections_in_range(g),
                    1 <= round < depth,
                    x < n,
                    k2 <= cands@.len(),
                    placed(n as int, seen@, owner, gs, cur@),
                    ranked(g, seen@, gs, cur@),
                    layer_one_placed(g, seen@, owner, gs),
                    expansion_placed(g, seen@, owner, gs, depth as nat),
                    cur@.len() > 0,
                    cur@[0] == x,
                    cur@.len() >= f.len() + 1,
                    forall|q: int|
                        0 <= q < f.len() ==> cur@[q + 1] == #[trigger] f[q] && g[cur@[0] as int].connections@.contains(f[q]),
                    forall|q: int|
                        f.len() + 1 <= q < cur@.len() ==> !g[cur@[0] as int].connections@.contains(#[trigger] cur@[q])
                            && exists|l: int, r: nat| 0 <= l < f.len() && r < depth && #[trigger] hops(g, f[l] as int, cur@[q] as int, r),
                    forall|q: int| 0 <= q < cur@.len() ==> #[trigger] within(g, x as int, cur@[q] as int, depth as nat),
                    forall|q: int| 0 <= q < cands@.len() ==> #[trigger] cands@[q] < n && within(g, x as int, cands@[q] as int, (round + 1) as nat),
                    forall|q: int| 0 <= q < cands@.len() ==> #[trigger] reach_from(g, f, cands@[q] as int, round as nat),
                    forall|q: int| 0 <= q < next@.len() ==> #[trigger] next@[q] < n && within(g, x as int, next@[q] as int, (round + 2) as nat),
                    forall|q: int| 0 <= q < next@.len() ==> #[trigger] reach_from(g, f, next@[q] as int, (round + 1) as nat),
                    forall|q: int| 0 <= q < k2 ==> seen@[#[trigger] cands@[q] as int],
                    forall|q: int, e: int|
                        0 <= q < k2 && 0 <= e < g[cands@[q] as int].connections@.len() ==> next@.contains(
                            #[trigger] g[cands@[q] as int].connections@[e],
                        ),
                    forall|l: int, v: int, r: nat|
                        0 <= l < f.len() && r < round && 0 <= v < n && #[trigger] hops(g, f[l] as int, v, r) ==> seen@[v],
                    forall|l: int, v: int|
                        0 <= l < f.len() && 0 <= v < n && #[trigger] hops(g, f[l] as int, v, round as nat) ==> cands@.contains(v as usize),
                    forall|q: int| 0 <= q < g[x as int].connections@.len() ==> seen@[#[trigger] g[x as int].connections@[q] as int],
                    count_unseen(seen@, n as int) < c0,
                decreases cands@.len() - k2,
            {
                let c = cands[k2];
                assert(c < n && within(g, x as int, c as int, (round + 1) as nat));
                assert(reach_from(g, f, c as int, round as nat));
                if !seen[c] {
                    proof {
                        lemma_take_node(g, seen@, owner, gs, cur@, c, depth as nat);
                        lemma_mark_seen(seen@, c as int, n as int);
                        lemma_within_mono(g, x as int, c as int, (round + 1) as nat, depth as nat);
                        if g[x as int].connections@.contains(c) {
                            let e = choose|e: int| 0 <= e < g[x as int].connections@.len() && g[x as int].connections@[e] == c;
                            assert(seen@[g[x as int].connections@[e] as int]);
                        }
                    }
                    let ghost old_cur = cur@;
                    seen.set(c, true);
                    proof {
                        owner = owner.update(c as int, (gs.len() as int, cur@.len() as int));
                    }
                    cur.push(c);
                    proof {
                        assert(cur@[old_cur.len() as int] == c);
                        assert forall|q: int| 0 <= q < f.len() implies cur@[q + 1] == #[trigger] f[q] && g[cur@[0] as int].connections@.contains(f[q]) by {
                            assert(cur@[q + 1] == old_cur[q + 1]);
                        }
                        assert forall|q: int|
                            f.len() + 1 <= q < cur@.len() implies !g[cur@[0] as int].connections@.contains(#[trigger] cur@[q])
                                && exists|l: int, r: nat| 0 <= l < f.len() && r < depth && #[trigger] hops(g, f[l] as int, cur@[q] as int, r) by {
                            if q < old_cur.len() {
                                assert(cur@[q] == old_cur[q]);
                            } else {
                                let l = choose|l: int| 0 <= l < f.len() && #[trigger] hops(g, f[l] as int, c as int, round as nat);
                                assert(hops(g, f[l] as int, cur@[q] as int, round as nat));
                            }
                        }
                    }
                }
                proof {
                    lemma_extend_candidates(g, x as int, c as int, (round + 1) as nat, next@);
                    lemma_reach_append(g, f, c as int, round as nat, next@);
                }
                let ghost before = next@;
                append_all(&mut next, &graph[c].connections);
                proof {
                    assert forall|q: int, e: int|
                        0 <= q < k2 + 1 && 0 <= e < g[cands@[q] as int].connections@.len() implies next@.contains(
                        #[trigger] g[cands@[q] as int].connections@[e],
                    ) by {
                        if q < k2 {
                            let w = g[cands@[q] as int].connections@[e];
                            let p = choose|p: int| 0 <= p < before.len() && before[p] == w;
                            assert(next@[p] == w);
                        } else {
                            assert(next@[before.len() + e] == g[cands@[q] as int].connections@[e]);
                        }
                    }
                }
                k2 = k2 + 1;
            }
            proof {
                assert forall|l: int, v: int, r: nat|
                    0 <= l < f.len() && r < round + 1 && 0 <= v < n && #[trigger] hops(g, f[l] as int, v, r) implies seen@[v] by {
                    if r == round {
                        assert(cands@.contains(v as usize));
                        let p = choose|p: int| 0 <= p < cands@.len() && cands@[p] == v as usize;
                        assert(seen@[cands@[p] as int]);
                    }
                }
                assert forall|l: int, v: int|
                    0 <= l < f.len() && 0 <= v < n && #[trigger] hops(g, f[l] as int, v, (round + 1) as nat) implies next@.contains(v as usize) by {
                    assert(((round + 1) as nat - 1) as nat == round as nat);
                    let w = choose|w: int|
                        0 <= w < g.len() && hops(g, f[l] as int, w, round as nat) && #[trigger] g[w].connections@.contains(v as usize);
                    assert(cands@.contains(w as usize));
                    let p = choose|p: int| 0 <= p < cands@.len() && cands@[p] == w as usize;
                    let e = choose|e: int| 0 <= e < g[w].connections@.len() && g[w].connections@[e] == v as usize;
                    assert(g[cands@[p] as int].connections@[e] == v as usize);
                }
            }
            cands = next;
            round = round + 1;
        }
        let m = master_of(graph, &cur);
        proof {
            lemma_close(g, seen@, owner, gs, cur@, f, depth as nat);
            gs = gs.push(cur@);
        }
        groups.push(Group { nodes: cur, master_node: m });
    }
    proof {
        assert(node_lists(groups@) =~= gs);
        let nn = n as int;
        assert forall|v: int| 0 <= v < nn implies #[trigger] holds_node(gs, v) by {
            assert(seen@[v]);
            assert(slot_ok(gs, Seq::empty(), owner[v], v));
            let (i, k) = owner[v];
            assert(gs[i][k] == v);
        }
        assert forall|i: int, k: int, j: int, l: int|
            0 <= i < gs.len() && 0 <= k < gs[i].len() && 0 <= j < gs.len() && 0 <= l < gs[j].len()
                && #[trigger] gs[i][k] == #[trigger] gs[j][l] implies i == j && k == l by {
            assert(owner[gs[i][k] as int] == (i, k));
            assert(owner[gs[j][l] as int] == (j, l));
        }
        assert forall|i: int, k: int|
            0 <= i < gs.len() && 0 <= k < g[gs[i][0] as int].connections@.len() implies exists|j: int, l: int|
                0 <= j <= i && 0 <= l < gs[j].len() && #[trigger] gs[j][l]
                    == #[trigger] g[gs[i][0] as int].connections@[k] by {
            let c = g[gs[i][0] as int].connections@[k] as int;
            assert(seen@[c] && owner[c].0 <= i);
            assert(slot_ok(gs, Seq::empty(), owner[c], c));
            let (j, l) = owner[c];
            assert(gs[j][l] == c);
        }
        assert forall|i: int, l: int, v: int, r: nat|
            0 <= i < gs.len() && joined_neighbour(g, gs, i, l) && r < depth && 0 <= v < g.len() && #[trigger] hops(
                g,
                gs[i][l] as int,
                v,
                r,
            ) implies exists|j: int, m: int| 0 <= j <= i && 0 <= m < gs[j].len() && #[trigger] gs[j][m] == v by {
            assert(seen@[v] && owner[v].0 <= i);
            assert(slot_ok(gs, Seq::empty(), owner[v], v));
            let (j, m) = owner[v];
            assert(gs[j][m] == v);
        }
    }
    groups
}

} // verus!
