use rumi::{connect_graph, connects, dedup, determine_umi, label_groups, Config, Node, ReadCollection, ReadFreq, Umi};

fn node(umi: &str, read: usize, freq: u32, connections: Vec<usize>) -> Node {
    Node {
        umi: Umi::new(umi.as_bytes()).unwrap(),
        freq: ReadFreq { read: ReadCollection::SingleRead(read), freq },
        connections,
    }
}

fn config() -> Config {
    Config {
        input_bam: String::from("INPUT"),
        output_bam: String::from("OUTPUT"),
        umi_tag: String::from("RX"),
        allowed_read_dist: 1,
        allowed_count_factor: 2,
        allowed_network_depth: 2,
        umi_in_read_id: false,
        group_only: false,
        ignore_splice_pos: false,
        is_paired: false,
    }
}

fn check_graph(graph: &[Node], expected: &[(&str, u32, Vec<usize>)]) {
    assert_eq!(graph.len(), expected.len());
    for (node, (umi, freq, conns)) in graph.iter().zip(expected.iter()) {
        assert_eq!(node.umi.bases(), umi.as_bytes().to_vec());
        assert_eq!(node.freq.freq, *freq);
        assert_eq!(&node.connections, conns);
    }
}

#[test]
fn test_graph_small() {
    let config = config();
    let uncon_graph = vec![node("CAGTA", 0, 6, vec![]), node("TAGTA", 1, 1, vec![])];
    let graph = connect_graph(uncon_graph, config.allowed_read_dist, config.allowed_count_factor);
    check_graph(&graph, &[("CAGTA", 6, vec![1]), ("TAGTA", 1, vec![])]);
}

#[test]
fn test_graph_umi() {
    let config = config();
    let uncon_graph = vec![
        node("ATTG", 0, 1, vec![]),
        node("ATTA", 1, 456, vec![]),
        node("ATTT", 2, 2, vec![]),
        node("AGTA", 3, 72, vec![]),
        node("AGTC", 4, 1, vec![]),
        node("AGGA", 5, 90, vec![]),
    ];
    let graph = connect_graph(uncon_graph, config.allowed_read_dist, config.allowed_count_factor);
    check_graph(
        &graph,
        &[
            ("ATTG", 1, vec![]),
            ("ATTA", 456, vec![0, 2, 3]),
            ("ATTT", 2, vec![0]),
            ("AGTA", 72, vec![4]),
            ("AGTC", 1, vec![]),
            ("AGGA", 90, vec![]),
        ],
    );
}

#[test]
fn test_determine_umi() {
    let config = config();
    let graph = vec![
        node("ATTG", 0, 1, vec![]),
        node("ATTA", 1, 456, vec![0, 2, 3]),
        node("ATTT", 2, 2, vec![0]),
        node("AGTA", 3, 72, vec![4, 5]),
        node("AGTC", 4, 1, vec![]),
        node("AGGA", 5, 5, vec![]),
        node("AGGA", 6, 90, vec![5]),
    ];
    let grouping = determine_umi(&graph, config.allowed_network_depth);
    // No node may stand in two groups.
    assert_eq!(grouping[0].nodes.len(), 6);
    assert_eq!(grouping[1].nodes.len(), 1);
    let masters: Vec<&Node> = grouping.iter().map(|g| &graph[g.nodes[g.master_node]]).collect();
    assert_eq!(masters.len(), 2);
    assert_eq!(masters[0].umi.bases(), b"ATTA".to_vec());
    assert_eq!(masters[0].freq.freq, 456);
    assert_eq!(masters[0].connections, vec![0, 2, 3]);
    assert_eq!(masters[1].umi.bases(), b"AGGA".to_vec());
    assert_eq!(masters[1].freq.freq, 90);
    assert_eq!(masters[1].connections, vec![5]);
}

#[test]
fn cluster_order_is_seed_then_admission() {
    let graph = vec![
        node("ATTG", 0, 1, vec![]),
        node("ATTA", 1, 456, vec![0, 2, 3]),
        node("ATTT", 2, 2, vec![0]),
        node("AGTA", 3, 72, vec![4, 5]),
        node("AGTC", 4, 1, vec![]),
        node("AGGA", 5, 5, vec![]),
        node("AGGA", 6, 90, vec![5]),
    ];
    let grouping = determine_umi(&graph, 2);
    assert_eq!(grouping[0].nodes, vec![1, 0, 2, 3, 4, 5]);
    assert_eq!(grouping[0].master_node, 0);
    assert_eq!(grouping[1].nodes, vec![6]);
    // One level less stops at the direct neighbours.
    let shallow = determine_umi(&graph, 1);
    assert_eq!(shallow[0].nodes, vec![1, 0, 2, 3]);
    assert_eq!(shallow.len(), 3);
}

#[test]
fn directional_rule_at_the_boundary() {
    // freq_from = 2 * freq_to - 1 still connects, one less does not.
    assert!(connects(1, 5, 3, 1, 2));
    assert!(!connects(1, 4, 3, 1, 2));
    assert!(!connects(2, 100, 1, 1, 2));
    assert!(connects(0, 0, 0, 0, 0));
}

#[test]
fn dedup_emits_one_read_per_cluster() {
    let umis = vec![
        (Umi::new(b"CAGTA").unwrap(), ReadFreq { read: ReadCollection::SingleRead(1), freq: 6 }),
        (Umi::new(b"TAGTA").unwrap(), ReadFreq { read: ReadCollection::SingleRead(0), freq: 1 }),
        (Umi::new(b"GGGGG").unwrap(), ReadFreq { read: ReadCollection::SingleRead(9), freq: 2 }),
    ];
    let mut out = dedup(umis, &config());
    out.sort();
    assert_eq!(out, vec![1, 9]);
}

#[test]
fn label_groups_keeps_every_read_once() {
    let mut config = config();
    config.group_only = true;
    let umis = vec![
        (Umi::new(b"CAGTA").unwrap(), ReadFreq { read: ReadCollection::ManyReads(vec![1, 2, 3, 4, 5, 6]), freq: 6 }),
        (Umi::new(b"TAGTA").unwrap(), ReadFreq { read: ReadCollection::ManyReads(vec![0]), freq: 1 }),
    ];
    let groups = label_groups(umis, &config);
    assert_eq!(groups.len(), 1);
    assert_eq!(groups[0].umi, b"CAGTA".to_vec());
    let mut reads = groups[0].reads.clone();
    assert_eq!(reads[0], 1);
    reads.sort();
    assert_eq!(reads, vec![0, 1, 2, 3, 4, 5, 6]);
}
