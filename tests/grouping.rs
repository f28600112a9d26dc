use rumi::{group_reads, CigarOp, Config, Position, ReadCollection, ReadMap, Record, UmiError};

fn cigar(s: &str) -> Vec<CigarOp> {
    let mut ops = Vec::new();
    let mut n: u32 = 0;
    for c in s.chars() {
        if let Some(d) = c.to_digit(10) {
            n = n * 10 + d;
            continue;
        }
        ops.push(match c {
            'M' => CigarOp::Match(n),
            'I' => CigarOp::Ins(n),
            'D' => CigarOp::Del(n),
            'N' => CigarOp::RefSkip(n),
            'S' => CigarOp::SoftClip(n),
            'H' => CigarOp::HardClip(n),
            'P' => CigarOp::Pad(n),
            '=' => CigarOp::Equal(n),
            'X' => CigarOp::Diff(n),
            _ => panic!("bad cigar"),
        });
        n = 0;
    }
    ops
}

/// A record as a SAM line gives it: 1-based position, flag bits, `NM` and `RX`.
fn rec(qname: &str, flag: u16, tid: i32, pos: i64, mapq: u8, cig: &str, tlen: i64, nm: i64, rx: &str) -> Record {
    Record {
        qname: qname.as_bytes().to_vec(),
        tid,
        pos: pos - 1,
        mtid: -1,
        mapq,
        is_reverse: flag & 0x10 != 0,
        is_unmapped: flag & 0x4 != 0,
        is_paired: flag & 0x1 != 0,
        is_mate_unmapped: flag & 0x8 != 0,
        is_last_in_template: flag & 0x80 != 0,
        cigar: cigar(cig),
        insert_size: tlen,
        seq_len: 0,
        nh: None,
        nm: Some(nm),
        umi_tag: Some(rx.as_bytes().to_vec()),
    }
}

fn config() -> Config {
    Config {
        input_bam: String::from("INPUT"),
        output_bam: String::from("OUTPUT"),
        umi_tag: String::from("RX"),
        allowed_read_dist: 1,
        allowed_count_factor: 2,
        allowed_network_depth: 2,
        umi_in_read_id: false,
        group_only: false,
        ignore_splice_pos: false,
        is_paired: false,
    }
}

fn pos(pos: i64, is_spliced: Option<u64>, is_rev: bool, target: i32) -> Position {
    Position { target, pos, tlen: None, is_spliced, is_rev }
}

/// Checks the grouping against (position, [(umi, representative, freq)]).
fn check_readgroups(grouped: &ReadMap, expected: &[(Position, Vec<(&str, usize, u32)>)]) {
    assert_eq!(grouped.len(), expected.len());
    for (e_pos, e_umis) in expected {
        let (_, t_umis) = grouped.iter().find(|(p, _)| p == e_pos).expect("position missing");
        assert_eq!(t_umis.len(), e_umis.len());
        for (e_umi, e_read, e_freq) in e_umis {
            let (_, rf) = t_umis.iter().find(|(u, _)| u.bases() == e_umi.as_bytes()).expect("umi missing");
            assert_eq!(rf.freq, *e_freq);
            match rf.read {
                ReadCollection::SingleRead(i) => assert_eq!(i, *e_read),
                ReadCollection::ManyReads(_) => panic!("expected a single read"),
            }
        }
    }
    for w in grouped.windows(2) {
        assert!(w[0].0 < w[1].0);
    }
}

#[test]
fn test_group_reads_small() {
    let records = vec![
        rec("SRR2057595.142416_TAGTA", 0, 10, 61240266, 255, "26M", 0, 1, "TAGTA"),
        rec("SRR2057595.297818_CAGTA", 0, 10, 61240266, 255, "26M", 0, 1, "CAGTA"),
        rec("SRR2057595.324156_CAGTA", 0, 10, 61240266, 255, "26M", 0, 1, "CAGTA"),
        rec("SRR2057595.357312_CAGTA", 0, 10, 61240266, 255, "26M", 0, 1, "CAGTA"),
        rec("SRR2057595.413242_CAGTA", 0, 10, 61240266, 255, "26M", 0, 1, "CAGTA"),
        rec("SRR2057595.509959_CAGTA", 0, 10, 61240266, 255, "26M", 0, 1, "CAGTA"),
        rec("SRR2057595.623861_CAGTA", 0, 10, 61240266, 255, "26M", 0, 1, "CAGTA"),
    ];
    let (grouped, _) = group_reads(&records, &config()).unwrap();
    check_readgroups(&grouped, &[(pos(61240265, None, false, 10), vec![("CAGTA", 1, 6), ("TAGTA", 0, 1)])]);
}

#[test]
fn test_group_reads_complex() {
    let records = vec![
        rec("SRR2057595.142416_TAGTA", 0, 10, 61240266, 255, "26M", 26, 1, "TAGTA"),
        rec("SRR2057595.297818_CAGTA", 16, 10, 61240266, 255, "26M", 26, 1, "CAGTA"),
        rec("SRR2057595.324156_CAGTA", 0, 10, 61240266, 255, "26M", 26, 1, "CAGTA"),
        rec("SRR2057595.357312_CAGTA", 0, 10, 61240266, 254, "26M", 26, 1, "CAGTA"),
        rec("SRR2057595.324245_CAGTA", 0, 10, 61240266, 255, "26M", 26, 1, "CAGTA"),
        rec("SRR2057595.413242_CAGTA", 0, 10, 61240266, 255, "25M", 25, 1, "CAGTA"),
        rec("SRR2057595.509959_CAGTA", 0, 9, 61240266, 255, "26M", 26, 1, "CAGTA"),
        rec("SRR2057595.623861_CAGTA", 0, 10, 61240265, 255, "25M", 25, 1, "CAGTA"),
    ];
    let (grouped, _) = group_reads(&records, &config()).unwrap();
    check_readgroups(
        &grouped,
        &[
            (pos(61240265, None, false, 10), vec![("CAGTA", 2, 4), ("TAGTA", 0, 1)]),
            (pos(61240291, None, true, 10), vec![("CAGTA", 1, 1)]),
            (pos(61240264, None, false, 10), vec![("CAGTA", 7, 1)]),
            (pos(61240265, None, false, 9), vec![("CAGTA", 6, 1)]),
        ],
    );
}

#[test]
fn test_read_groups_umi_tools() {
    let records = vec![
        rec("SRR2057595.11597812_ATAAA", 16, 10, 4078297, 255, "38M", 0, 1, "ATAAA"),
        rec("SRR2057595.10788_ATAAA", 16, 10, 4078298, 255, "37M", 0, 0, "ATAAA"),
        rec("SRR2057595.42646_ATAAA", 16, 10, 4078298, 255, "37M", 0, 0, "ATAAA"),
    ];
    let (grouped, _) = group_reads(&records, &config()).unwrap();
    check_readgroups(&grouped, &[(pos(4078334, None, true, 10), vec![("ATAAA", 1, 3)])]);
}

#[test]
fn test_read_groups_cigars() {
    let records = vec![
        rec("SRR2057595.11597812_ATAAA", 16, 10, 4078297, 255, "3S35M", 0, 1, "ATAAA"),
        rec("SRR2057595.10788_ATAAA", 16, 10, 4078294, 255, "33M4S", 0, 0, "ATAAA"),
        rec("SRR2057595.42646_ATAAA", 16, 10, 4078298, 255, "15M7N15M", 0, 0, "ATAAA"),
        rec("SRR2057595.11597790_ATAAA", 0, 10, 4078300, 255, "3S35M", 0, 1, "ATAAA"),
        rec("SRR2057595.10988_ATAAA", 0, 10, 4078298, 255, "33M4S", 0, 0, "ATAAA"),
        rec("SRR2057595.4246_ATAAA", 0, 10, 4078298, 255, "15M7N15M", 0, 0, "ATAAA"),
    ];
    let (grouped, _) = group_reads(&records, &config()).unwrap();
    check_readgroups(
        &grouped,
        &[
            (pos(4078330, None, true, 10), vec![("ATAAA", 1, 1)]),
            (pos(4078331, Some(35), true, 10), vec![("ATAAA", 0, 1)]),
            (pos(4078334, Some(15), true, 10), vec![("ATAAA", 2, 1)]),
            (pos(4078296, None, false, 10), vec![("ATAAA", 3, 1)]),
            (pos(4078297, Some(33), false, 10), vec![("ATAAA", 4, 1)]),
            (pos(4078297, Some(15), false, 10), vec![("ATAAA", 5, 1)]),
        ],
    );
}

#[test]
fn group_mode_keeps_every_read_in_order() {
    let mut cfg = config();
    cfg.group_only = true;
    let records = vec![
        rec("a_CAGTA", 0, 10, 100, 255, "26M", 0, 1, "CAGTA"),
        rec("b_TAGTA", 0, 10, 100, 255, "26M", 0, 1, "TAGTA"),
        rec("c_CAGTA", 0, 10, 100, 200, "26M", 0, 1, "CAGTA"),
    ];
    let (grouped, stats) = group_reads(&records, &cfg).unwrap();
    assert_eq!(grouped.len(), 1);
    let umis = &grouped[0].1;
    assert_eq!(umis.len(), 2);
    assert_eq!(umis[0].0.bases(), b"CAGTA".to_vec());
    assert_eq!(umis[0].1.freq, 2);
    match &umis[0].1.read {
        ReadCollection::ManyReads(v) => assert_eq!(v, &vec![0, 2]),
        _ => panic!("expected all reads"),
    }
    assert_eq!(stats.reads_in, 3);
    assert_eq!(stats.reads_out, 0);
}

#[test]
fn dedup_mode_prefers_quality_then_fewer_alignments() {
    let mut a = rec("a_CAGTA", 0, 10, 100, 30, "26M", 0, 1, "CAGTA");
    let mut b = rec("b_CAGTA", 0, 10, 100, 30, "26M", 0, 1, "CAGTA");
    a.nh = Some(3);
    b.nh = Some(1);
    let c = rec("c_CAGTA", 0, 10, 100, 20, "26M", 0, 0, "CAGTA");
    let records = vec![a, b, c];
    let (grouped, _) = group_reads(&records, &config()).unwrap();
    match grouped[0].1[0].1.read {
        ReadCollection::SingleRead(i) => assert_eq!(i, 1),
        _ => panic!(),
    }
}

#[test]
fn filters_are_counted() {
    let mut cfg = config();
    cfg.is_paired = true;
    let mut unmapped = rec("u_AAAA", 0x1 | 0x4, 10, 100, 0, "26M", 0, 0, "AAAA");
    unmapped.mtid = 10;
    let unpaired = rec("p_AAAA", 0, 10, 100, 30, "26M", 0, 0, "AAAA");
    let mut chimeric = rec("c_AAAA", 0x1, 10, 100, 30, "26M", 0, 0, "AAAA");
    chimeric.mtid = 3;
    let mut mate_unmapped = rec("m_AAAA", 0x1 | 0x8, 10, 100, 30, "26M", 50, 0, "AAAA");
    mate_unmapped.mtid = 10;
    let mut second = rec("s_AAAA", 0x1 | 0x80, 10, 100, 30, "26M", 0, 0, "AAAA");
    second.mtid = 10;
    let records = vec![unmapped, unpaired, chimeric, mate_unmapped, second];
    let (grouped, stats) = group_reads(&records, &cfg).unwrap();
    assert_eq!(stats.reads_in, 5);
    assert_eq!(stats.reads_unmapped, 1);
    assert_eq!(stats.reads_unpaired, 1);
    assert_eq!(stats.chimeric, 1);
    assert_eq!(stats.mate_unmapped, 1);
    assert_eq!(grouped.len(), 1);
    assert_eq!(grouped[0].0.tlen, Some(50));
    assert_eq!(grouped[0].1[0].1.freq, 1);
}

#[test]
fn missing_umi_is_an_error() {
    let mut r = rec("x", 0, 10, 100, 30, "26M", 0, 0, "AAAA");
    r.umi_tag = None;
    let unmapped_without_umi = {
        let mut u = rec("y", 0x4, 10, 100, 30, "26M", 0, 0, "AAAA");
        u.umi_tag = None;
        u
    };
    assert!(group_reads(&vec![unmapped_without_umi], &config()).is_ok());
    match group_reads(&vec![r], &config()) {
        Err(e) => assert_eq!(e, UmiError::Missing),
        Ok(_) => panic!("a kept read without a UMI must fail"),
    }
}

#[test]
fn overlong_umi_is_an_error() {
    let r = rec("x", 0, 10, 100, 30, "26M", 0, 0, "ACGTACGTACGTACGTACGTAC");
    match group_reads(&vec![r], &config()) {
        Err(e) => assert_eq!(e, UmiError::TooLong),
        Ok(_) => panic!("a UMI of 22 bases must fail"),
    }
}

#[test]
fn umi_from_read_name() {
    let mut cfg = config();
    cfg.umi_in_read_id = true;
    let mut a = rec("SRR1_x_GGTT", 0, 10, 100, 30, "26M", 0, 0, "AAAA");
    a.umi_tag = None;
    let b = rec("SRR2_GGTT", 0, 10, 100, 30, "26M", 0, 0, "CCCC");
    let (grouped, _) = group_reads(&vec![a, b], &cfg).unwrap();
    assert_eq!(grouped[0].1.len(), 1);
    assert_eq!(grouped[0].1[0].0.bases(), b"GGTT".to_vec());
    assert_eq!(grouped[0].1[0].1.freq, 2);
}

#[test]
fn ignore_splice_pos_merges_splice_sites() {
    let mut cfg = config();
    cfg.ignore_splice_pos = true;
    let records = vec![
        rec("a", 0, 10, 100, 30, "10M5N10M", 0, 0, "ACGT"),
        rec("b", 0, 10, 100, 30, "12M5N8M", 0, 0, "ACGT"),
        rec("c", 0, 10, 100, 30, "20M", 0, 0, "ACGT"),
    ];
    let (grouped, _) = group_reads(&records, &cfg).unwrap();
    assert_eq!(grouped.len(), 2);
    assert_eq!(grouped[0].0.is_spliced, None);
    assert_eq!(grouped[1].0.is_spliced, Some(0));
    assert_eq!(grouped[1].1[0].1.freq, 2);
}
