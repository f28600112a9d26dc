//! An aligned read as the deduplication logic sees it, its classification,
//! and the order in which one read is preferred over another.
use vstd::prelude::*;

verus! {

/// Longest CIGAR operation that a BAM record can hold (28 bits).
pub const MAX_OP_LEN: u32 = 268435456;

/// Largest magnitude of a start coordinate that the position arithmetic takes.
pub const MAX_COORD: i64 = 4611686018427387904;

/// One CIGAR operation and its length.
#[derive(Debug, Clone, Copy, PartialEq, Eq, Structural)]
pub enum CigarOp {
    Match(u32),
    Ins(u32),
    Del(u32),
    RefSkip(u32),
    SoftClip(u32),
    HardClip(u32),
    Pad(u32),
    Equal(u32),
    Diff(u32),
}

impl CigarOp {
    pub open spec fn len(self) -> u32 {
        match self {
            CigarOp::Match(n) => n,
            CigarOp::Ins(n) => n,
            CigarOp::Del(n) => n,
            CigarOp::RefSkip(n) => n,
            CigarOp::SoftClip(n) => n,
            CigarOp::HardClip(n) => n,
            CigarOp::Pad(n) => n,
            CigarOp::Equal(n) => n,
            CigarOp::Diff(n) => n,
        }
    }
}

/// The fields of an aligned read that grouping, position and tie-break read.
pub struct Record {
    /// Template name.
    pub qname: Vec<u8>,
    /// Reference sequence index.
    pub tid: i32,
    /// Leftmost aligned reference coordinate (0-based).
    pub pos: i64,
    /// Reference sequence index of the mate.
    pub mtid: i32,
    /// Mapping quality.
    pub mapq: u8,
    pub is_reverse: bool,
    pub is_unmapped: bool,
    pub is_paired: bool,
    pub is_mate_unmapped: bool,
    /// Second read of its template.
    pub is_last_in_template: bool,
    pub cigar: Vec<CigarOp>,
    /// Observed template length.
    pub insert_size: i64,
    /// Length of the read's sequence.
    pub seq_len: usize,
    /// Value of the `NH` tag (number of reported alignments), if present.
    pub nh: Option<i64>,
    /// Value of the `NM` tag (edit distance), if present.
    pub nm: Option<i64>,
    /// Value of the configured UMI tag, if present and a string.
    pub umi_tag: Option<Vec<u8>>,
}

impl Record {
    /// Limits of the BAM format that keep the position arithmetic in range:
    /// a 32-bit operation count, 28-bit operation lengths.
    pub open spec fn wf(&self) -> bool {
        &&& self.cigar@.len() <= u32::MAX
        &&& forall|i: int| 0 <= i < self.cigar@.len() ==> #[trigger] self.cigar@[i].len() < MAX_OP_LEN
        &&& -MAX_COORD <= self.pos <= MAX_COORD
    }

    pub open spec fn nh_or_zero(&self) -> i64 {
        match self.nh {
            Some(v) => v,
            None => 0,
        }
    }

    pub open spec fn nm_or_zero(&self) -> i64 {
        match self.nm {
            Some(v) => v,
            None => 0,
        }
    }
}

/// How a read fares in the filters that precede grouping.
#[derive(Debug, Clone, Copy, PartialEq, Eq, Structural)]
pub enum RecordEvent {
    RecordMapped,
    RecordUnmapped,
    RecordUnpaired,
    RecordMateUnmapped,
    RecordChimeric,
}

pub open spec fn classify(r: Record, paired_end: bool) -> RecordEvent {
    if r.is_unmapped {
        RecordEvent::RecordUnmapped
    } else if !paired_end {
        RecordEvent::RecordMapped
    } else if !r.is_paired {
        RecordEvent::RecordUnpaired
    } else if r.tid != r.mtid {
        RecordEvent::RecordChimeric
    } else if r.is_mate_unmapped {
        RecordEvent::RecordMateUnmapped
    } else {
        RecordEvent::RecordMapped
    }
}

/// Classifies a read: unmapped; and for paired-end input also unpaired, mate
/// on another reference (chimeric), or mate unmapped; else mapped.
pub fn check_record(record: &Record, paired_end: bool) -> (r: RecordEvent)
    ensures
        r == classify(*record, paired_end),
{
    if record.is_unmapped {
        return RecordEvent::RecordUnmapped;
    }
    if paired_end {
        if !record.is_paired {
            return RecordEvent::RecordUnpaired;
        }
        if record.tid != record.mtid {
            return RecordEvent::RecordChimeric;
        }
        if record.is_mate_unmapped {
            return RecordEvent::RecordMateUnmapped;
        }
    }
    RecordEvent::RecordMapped
}

/// `a` is at least as good a representative as `b`: higher mapping quality,
/// then fewer reported alignments, then smaller edit distance, then longer
/// sequence; on a full tie `a` (the incumbent) holds.
pub open spec fn read_ge(a: Record, b: Record) -> bool {
    if a.mapq != b.mapq {
        a.mapq > b.mapq
    } else if a.nh_or_zero() != b.nh_or_zero() {
        a.nh_or_zero() < b.nh_or_zero()
    } else if a.nm_or_zero() != b.nm_or_zero() {
        a.nm_or_zero() < b.nm_or_zero()
    } else {
        a.seq_len >= b.seq_len
    }
}

/// The tie-break is a total preorder: any two reads compare one way or the
/// other, and preference is transitive.
pub proof fn lemma_tie_break_total_order(a: Record, b: Record, c: Record)
    ensures
        read_ge(a, b) || read_ge(b, a),
        read_ge(a, b) && read_ge(b, c) ==> read_ge(a, c),
{
}

fn tag_or_zero(v: Option<i64>) -> (r: i64)
    ensures
        r == match v {
            Some(x) => x,
            None => 0,
        },
{
    match v {
        Some(x) => x,
        None => 0,
    }
}

/// Whether `alpha` is at least as good a representative as `beta`.
pub fn read_a_ge_b(alpha: &Record, beta: &Record) -> (r: bool)
    ensures
        r == read_ge(*alpha, *beta),
{
    if alpha.mapq != beta.mapq {
        return alpha.mapq > beta.mapq;
    }
    let nh_a = tag_or_zero(alpha.nh);
    let nh_b = tag_or_zero(beta.nh);
    if nh_a != nh_b {
        return nh_a < nh_b;
    }
    let nm_a = tag_or_zero(alpha.nm);
    let nm_b = tag_or_zero(beta.nm);
    if nm_a != nm_b {
        return nm_a < nm_b;
    }
    alpha.seq_len >= beta.seq_len
}

} // verus!
