use rumi::{
    check_record, end_pos, find_splice, get_tag, read_a_ge_b, Bundler, CigarOp, Config, Position, Record, RecordEvent,
    Stats, Umi, UmiError,
};

fn record(cigar: Vec<CigarOp>, pos: i64, is_reverse: bool) -> Record {
    Record {
        qname: b"read_ACGT".to_vec(),
        tid: 3,
        pos,
        mtid: 3,
        mapq: 60,
        is_reverse,
        is_unmapped: false,
        is_paired: false,
        is_mate_unmapped: false,
        is_last_in_template: false,
        cigar,
        insert_size: 180,
        seq_len: 26,
        nh: None,
        nm: None,
        umi_tag: Some(b"ACGT".to_vec()),
    }
}

fn config() -> Config {
    Config {
        input_bam: String::from("INPUT"),
        output_bam: String::from("OUTPUT"),
        umi_tag: String::from("RX"),
        allowed_read_dist: 1,
        allowed_count_factor: 2,
        allowed_network_depth: 2,
        umi_in_read_id: false,
        group_only: false,
        ignore_splice_pos: false,
        is_paired: false,
    }
}

#[test]
fn soft_clip_shifts_position_and_marks_splice() {
    // Two reverse reads at one start: 26M and 3S23M.
    let a = Position::new(&record(vec![CigarOp::Match(26)], 1000, true), false, false);
    let b = Position::new(&record(vec![CigarOp::SoftClip(3), CigarOp::Match(23)], 1000, true), false, false);
    assert_eq!(a.pos, 1026);
    assert_eq!(a.is_spliced, None);
    assert_eq!(b.pos, 1023);
    // Counted from the 5' end (the right for a reverse read), the clip comes
    // after 23 aligned bases.
    assert_eq!(b.is_spliced, Some(23));
    assert_ne!(a, b);
    let c = Position::new(&record(vec![CigarOp::SoftClip(3), CigarOp::Match(23)], 1000, true), true, false);
    assert_eq!(c.is_spliced, Some(0));
}

#[test]
fn forward_position_subtracts_leading_clip() {
    let p = Position::new(&record(vec![CigarOp::SoftClip(5), CigarOp::Match(20), CigarOp::SoftClip(2)], 500, false), false, true);
    assert_eq!(p.pos, 495);
    assert_eq!(p.is_spliced, Some(25));
    assert_eq!(p.tlen, Some(180));
    assert_eq!(p.target, 3);
    assert!(!p.is_rev);
}

#[test]
fn position_ignores_other_fields() {
    let a = record(vec![CigarOp::Match(26)], 77, false);
    let mut b = record(vec![CigarOp::Match(26)], 77, false);
    b.qname = b"other_TTTT".to_vec();
    b.mapq = 3;
    b.nm = Some(4);
    b.seq_len = 1;
    assert_eq!(Position::new(&a, false, false), Position::new(&b, false, false));
}

#[test]
fn empty_cigar_has_no_clip_and_no_splice() {
    let p = Position::new(&record(vec![], 10, false), false, false);
    assert_eq!(p.pos, 10);
    assert_eq!(p.is_spliced, None);
}

#[test]
fn splice_offsets() {
    let c = vec![CigarOp::Match(10), CigarOp::Ins(2), CigarOp::Del(3), CigarOp::RefSkip(100), CigarOp::Match(5)];
    assert_eq!(find_splice(&c, false), Some(13));
    assert_eq!(find_splice(&c, true), Some(5));
    let d = vec![CigarOp::HardClip(4), CigarOp::Equal(3), CigarOp::Diff(1), CigarOp::Pad(1), CigarOp::Match(2)];
    assert_eq!(find_splice(&d, false), None);
    assert_eq!(find_splice(&vec![], false), None);
}

#[test]
fn end_position_counts_reference_bases() {
    let r = record(vec![CigarOp::SoftClip(2), CigarOp::Match(10), CigarOp::Ins(4), CigarOp::Del(1), CigarOp::RefSkip(50), CigarOp::Match(5)], 100, false);
    assert_eq!(end_pos(&r), 166);
}

#[test]
fn records_are_classified() {
    let mut r = record(vec![CigarOp::Match(5)], 1, false);
    assert_eq!(check_record(&r, false), RecordEvent::RecordMapped);
    r.is_unmapped = true;
    assert_eq!(check_record(&r, false), RecordEvent::RecordUnmapped);
    r.is_unmapped = false;
    assert_eq!(check_record(&r, true), RecordEvent::RecordUnpaired);
    r.is_paired = true;
    r.mtid = 4;
    assert_eq!(check_record(&r, true), RecordEvent::RecordChimeric);
    assert_eq!(check_record(&r, false), RecordEvent::RecordMapped);
    r.mtid = 3;
    r.is_mate_unmapped = true;
    assert_eq!(check_record(&r, true), RecordEvent::RecordMateUnmapped);
    r.is_mate_unmapped = false;
    assert_eq!(check_record(&r, true), RecordEvent::RecordMapped);
}

#[test]
fn tie_break_ladder() {
    let base = record(vec![CigarOp::Match(5)], 1, false);
    let mut better_mapq = record(vec![CigarOp::Match(5)], 1, false);
    better_mapq.mapq = 61;
    assert!(read_a_ge_b(&better_mapq, &base));
    assert!(!read_a_ge_b(&base, &better_mapq));
    let mut fewer_hits = record(vec![CigarOp::Match(5)], 1, false);
    fewer_hits.nh = Some(-1);
    assert!(read_a_ge_b(&fewer_hits, &base));
    let mut more_hits = record(vec![CigarOp::Match(5)], 1, false);
    more_hits.nh = Some(2);
    assert!(!read_a_ge_b(&more_hits, &base));
    let mut more_edits = record(vec![CigarOp::Match(5)], 1, false);
    more_edits.nm = Some(1);
    assert!(read_a_ge_b(&base, &more_edits));
    assert!(!read_a_ge_b(&more_edits, &base));
    let mut longer = record(vec![CigarOp::Match(5)], 1, false);
    longer.seq_len = 30;
    assert!(read_a_ge_b(&longer, &base));
    assert!(!read_a_ge_b(&base, &longer));
    // The incumbent holds on a full tie.
    assert!(read_a_ge_b(&base, &base));
}

#[test]
fn tie_break_is_transitive() {
    let mut a = record(vec![CigarOp::Match(5)], 1, false);
    let mut b = record(vec![CigarOp::Match(5)], 1, false);
    let mut c = record(vec![CigarOp::Match(5)], 1, false);
    a.mapq = 50;
    b.mapq = 40;
    b.nm = Some(0);
    c.mapq = 40;
    c.nm = Some(2);
    assert!(read_a_ge_b(&a, &b) && read_a_ge_b(&b, &c) && read_a_ge_b(&a, &c));
    assert!(!read_a_ge_b(&c, &a));
}

#[test]
fn umi_encoding() {
    let u = Umi::new(b"ACXGT").unwrap();
    assert_eq!(u.bases(), b"ACNGT".to_vec());
    let v = Umi::new(b"ACCGT").unwrap();
    let w = Umi::new(b"ACCGA").unwrap();
    assert_eq!(v.distance(&w), 1);
    assert_eq!(v.distance(&v), 0);
    // An N never matches, not even itself.
    assert_eq!(u.distance(&u), 1);
    assert_eq!(u.distance(&v), 1);
    assert!(u.same(&Umi::new(b"ACQGT").unwrap()));
    assert!(!u.same(&v));
    assert!(Umi::new(b"ACGTACGTACGTACGTACGTA").is_ok());
    match Umi::new(b"ACGTACGTACGTACGTACGTAC") {
        Err(e) => assert_eq!(e, UmiError::TooLong),
        Ok(_) => panic!("22 bases do not fit"),
    }
}

#[test]
fn tag_from_name_or_aux() {
    let r = record(vec![CigarOp::Match(5)], 1, false);
    let mut cfg = config();
    assert_eq!(get_tag(&r, &cfg), Some(b"ACGT".to_vec()));
    cfg.umi_in_read_id = true;
    let mut s = record(vec![CigarOp::Match(5)], 1, false);
    s.qname = b"a_b_TTGA".to_vec();
    assert_eq!(get_tag(&s, &cfg), Some(b"TTGA".to_vec()));
    s.qname = b"noseparator".to_vec();
    assert_eq!(get_tag(&s, &cfg), Some(b"noseparator".to_vec()));
    cfg.umi_in_read_id = false;
    s.umi_tag = None;
    assert_eq!(get_tag(&s, &cfg), None);
}

#[test]
fn stats_add_up() {
    let mut a = Stats::new();
    let b = Stats { reads_in: 7, reads_out: 1, reads_unmapped: 2, reads_unpaired: 3, mate_unmapped: 4, chimeric: 5 };
    a.update(&b);
    a.update(&b);
    assert_eq!(a.reads_in, 14);
    assert_eq!(a.reads_out, 2);
    assert_eq!(a.reads_unmapped, 4);
    assert_eq!(a.reads_unpaired, 6);
    assert_eq!(a.mate_unmapped, 8);
    assert_eq!(a.chimeric, 10);
}

#[test]
fn bundles_follow_target_changes() {
    let mut b: Bundler<u32> = Bundler::new();
    assert_eq!(b.push(0, 1), None);
    assert_eq!(b.push(0, 2), None);
    assert_eq!(b.push(1, 3), Some(vec![1, 2]));
    assert_eq!(b.push(2, 4), Some(vec![3]));
    assert_eq!(b.finish(), Some(vec![4]));
    assert_eq!(b.finish(), None);
    let mut empty: Bundler<u32> = Bundler::new();
    assert_eq!(empty.finish(), None);
}
