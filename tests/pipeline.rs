use rumi::{dedup, group_reads, label_groups, CigarOp, Config, Record};

fn s1_record(name: &str, umi: &str) -> Record {
    Record {
        qname: name.as_bytes().to_vec(),
        tid: 10,
        pos: 61240265,
        mtid: -1,
        mapq: 255,
        is_reverse: false,
        is_unmapped: false,
        is_paired: false,
        is_mate_unmapped: false,
        is_last_in_template: false,
        cigar: vec![CigarOp::Match(26)],
        insert_size: 0,
        seq_len: 26,
        nh: None,
        nm: Some(1),
        umi_tag: Some(umi.as_bytes().to_vec()),
    }
}

fn s1() -> Vec<Record> {
    let mut v = vec![s1_record("SRR2057595.142416_TAGTA", "TAGTA")];
    for n in ["297818", "324156", "357312", "413242", "509959", "623861"] {
        v.push(s1_record(&format!("SRR2057595.{}_CAGTA", n), "CAGTA"));
    }
    v
}

fn config(group_only: bool) -> Config {
    Config {
        input_bam: String::from("INPUT"),
        output_bam: String::from("OUTPUT"),
        umi_tag: String::from("RX"),
        allowed_read_dist: 1,
        allowed_count_factor: 2,
        allowed_network_depth: 2,
        umi_in_read_id: false,
        group_only,
        ignore_splice_pos: false,
        is_paired: false,
    }
}

fn dedup_all(records: &Vec<Record>, cfg: &Config) -> Vec<usize> {
    let (map, _) = group_reads(records, cfg).unwrap();
    map.into_iter().flat_map(|(_, umis)| dedup(umis, cfg)).collect()
}

#[test]
fn simple_cluster_dedups_to_one_read() {
    let records = s1();
    let (map, _) = group_reads(&records, &config(false)).unwrap();
    assert_eq!(map.len(), 1);
    assert_eq!(map[0].1.len(), 2);
    let out = dedup_all(&records, &config(false));
    assert_eq!(out, vec![1]);
}

#[test]
fn dedup_of_deduplicated_output_is_unchanged() {
    let records = s1();
    let out = dedup_all(&records, &config(false));
    let again: Vec<Record> = out.iter().map(|&i| s1_record(&String::from_utf8(records[i].qname.clone()).unwrap(), "CAGTA")).collect();
    assert_eq!(dedup_all(&again, &config(false)), vec![0]);
}

#[test]
fn group_mode_labels_every_read_once() {
    let records = s1();
    let cfg = config(true);
    let (map, _) = group_reads(&records, &cfg).unwrap();
    let groups: Vec<_> = map.into_iter().flat_map(|(_, umis)| label_groups(umis, &cfg)).collect();
    assert_eq!(groups.len(), 1);
    assert_eq!(groups[0].umi, b"CAGTA".to_vec());
    let mut reads = groups[0].reads.clone();
    assert_eq!(reads.len(), 7);
    reads.sort();
    assert_eq!(reads, vec![0, 1, 2, 3, 4, 5, 6]);
}
