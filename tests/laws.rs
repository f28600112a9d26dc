use rumi::{connect_graph, determine_umi, Node, ReadCollection, ReadFreq, Umi};

fn node(umi: &str, freq: u32) -> Node {
    Node {
        umi: Umi::new(umi.as_bytes()).unwrap(),
        freq: ReadFreq { read: ReadCollection::SingleRead(0), freq },
        connections: vec![],
    }
}

fn example() -> Vec<Node> {
    vec![node("ATTG", 1), node("ATTA", 456), node("ATTT", 2), node("AGTA", 72), node("AGTC", 1), node("AGGA", 90)]
}

#[test]
fn edges_obey_the_rule() {
    let g = connect_graph(example(), 1, 2);
    for (i, n) in g.iter().enumerate() {
        for &j in &n.connections {
            assert_ne!(i, j);
            assert!(n.umi.distance(&g[j].umi) <= 1);
            assert!(n.freq.freq as i64 >= 2 * g[j].freq.freq as i64 - 1);
        }
    }
}

#[test]
fn clusters_partition_the_nodes() {
    let g = connect_graph(example(), 1, 2);
    let groups = determine_umi(&g, 3);
    let mut all: Vec<usize> = groups.iter().flat_map(|c| c.nodes.clone()).collect();
    all.sort();
    assert_eq!(all, vec![0, 1, 2, 3, 4, 5]);
}

#[test]
fn depth_one_without_downward_edges_gives_singletons() {
    // The only edge points from the rarer node to the more frequent one.
    let mut g = vec![node("AAAA", 5), node("AAAT", 1)];
    g[1].connections = vec![0];
    let groups = determine_umi(&g, 1);
    assert_eq!(groups.len(), 2);
    assert!(groups.iter().all(|c| c.nodes.len() == 1));
}

#[test]
fn depth_one_still_takes_direct_neighbours() {
    let g = connect_graph(vec![node("AAAA", 3), node("AAAT", 1)], 1, 2);
    let groups = determine_umi(&g, 1);
    assert_eq!(groups.len(), 1);
    assert_eq!(groups[0].nodes, vec![0, 1]);
    // Two counts of one point at each other; the first seed takes the other.
    let h = connect_graph(vec![node("AAAA", 1), node("AAAT", 1)], 1, 2);
    assert_eq!(determine_umi(&h, 1)[0].nodes, vec![0, 1]);
}

#[test]
fn unit_factor_is_symmetric_for_close_counts() {
    let g = connect_graph(vec![node("AAAA", 4), node("AAAT", 5), node("AATT", 5)], 1, 1);
    assert_eq!(g[0].connections, vec![1]);
    assert_eq!(g[1].connections, vec![0, 2]);
    assert_eq!(g[2].connections, vec![1]);
    // Counts further apart connect from the larger only.
    let h = connect_graph(vec![node("AAAA", 1), node("AAAT", 5)], 1, 1);
    assert!(h[0].connections.is_empty());
    assert_eq!(h[1].connections, vec![0]);
}

#[test]
fn distance_zero_gives_exact_umi_clusters() {
    let g = connect_graph(example(), 0, 2);
    assert!(g.iter().all(|n| n.connections.is_empty()));
    let groups = determine_umi(&g, 2);
    assert_eq!(groups.len(), 6);
    assert!(groups.iter().all(|c| c.nodes.len() == 1));
}
