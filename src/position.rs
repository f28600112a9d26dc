//! The locus key on which reads are grouped.
use crate::record::{CigarOp, Record, MAX_OP_LEN};
use vstd::prelude::*;

verus! {

/// The locus a read is grouped on. Fields are declared in the order in which
/// positions compare: target, 5' coordinate, template length, splice offset,
/// strand.
#[derive(Debug, Clone, Copy, PartialEq, Eq, Structural, Hash, PartialOrd, Ord)]
pub struct Position {
    /// Reference sequence index.
    pub target: i32,
    /// 5' end of the read on the reference, soft clips included.
    pub pos: i64,
    /// Template length, kept for paired-end input only.
    pub tlen: Option<i64>,
    /// Offset from the 5' end to the first splice or inner soft clip.
    pub is_spliced: Option<u64>,
    /// Reverse strand.
    pub is_rev: bool,
}

pub open spec fn opt_lt_i64(a: Option<i64>, b: Option<i64>) -> bool {
    match (a, b) {
        (None, Some(_)) => true,
        (Some(x), Some(y)) => x < y,
        _ => false,
    }
}

pub open spec fn opt_lt_u64(a: Option<u64>, b: Option<u64>) -> bool {
    match (a, b) {
        (None, Some(_)) => true,
        (Some(x), Some(y)) => x < y,
        _ => false,
    }
}

/// The order of positions: lexicographic over target, coordinate, template
/// length, splice offset and strand (an absent value first, forward first).
pub open spec fn pos_lt(a: Position, b: Position) -> bool {
    if a.target != b.target {
        a.target < b.target
    } else if a.pos != b.pos {
        a.pos < b.pos
    } else if a.tlen != b.tlen {
        opt_lt_i64(a.tlen, b.tlen)
    } else if a.is_spliced != b.is_spliced {
        opt_lt_u64(a.is_spliced, b.is_spliced)
    } else {
        !a.is_rev && b.is_rev
    }
}

/// `pos_lt` is a strict total order.
pub proof fn lemma_pos_order(a: Position, b: Position, c: Position)
    ensures
        !pos_lt(a, a),
        pos_lt(a, b) ==> !pos_lt(b, a),
        pos_lt(a, b) && pos_lt(b, c) ==> pos_lt(a, c),
        a != b ==> pos_lt(a, b) || pos_lt(b, a),
{
}

fn opt_less_i64(a: Option<i64>, b: Option<i64>) -> (r: bool)
    ensures
        r == opt_lt_i64(a, b),
{
    match (a, b) {
        (None, Some(_)) => true,
        (Some(x), Some(y)) => x < y,
        _ => false,
    }
}

fn opt_less_u64(a: Option<u64>, b: Option<u64>) -> (r: bool)
    ensures
        r == opt_lt_u64(a, b),
{
    match (a, b) {
        (None, Some(_)) => true,
        (Some(x), Some(y)) => x < y,
        _ => false,
    }
}

/// Operations that advance along the reference.
pub open spec fn consumes_ref(op: CigarOp) -> bool {
    op is Match || op is Del || op is RefSkip || op is Equal || op is Diff
}

/// Reference bases covered by the first `n` operations.
pub open spec fn ref_span(ops: Seq<CigarOp>, n: int) -> int
    decreases n,
{
    if n <= 0 {
        0
    } else {
        ref_span(ops, n - 1) + if consumes_ref(ops[n - 1]) {
            ops[n - 1].len() as int
        } else {
            0
        }
    }
}

/// The `k`-th operation counted from the read's 5' end.
pub open spec fn op_from_5p(ops: Seq<CigarOp>, rev: bool, k: int) -> CigarOp {
    if rev {
        ops[ops.len() - 1 - k]
    } else {
        ops[k]
    }
}

/// Scans from the `k`-th operation (from the 5' end) with `offset` bases
/// counted so far, stopping at the first reference skip or soft clip.
pub open spec fn splice_from(ops: Seq<CigarOp>, rev: bool, k: int, offset: int) -> Option<int>
    decreases ops.len() - k,
{
    if k >= ops.len() || k < 0 {
        None
    } else {
        let op = op_from_5p(ops, rev, k);
        if op is RefSkip || op is SoftClip {
            Some(offset)
        } else if op is Match || op is Del || op is Equal || op is Diff {
            splice_from(ops, rev, k + 1, offset + op.len())
        } else {
            splice_from(ops, rev, k + 1, offset)
        }
    }
}

/// Offset from the 5' end to the first splice or inner soft clip; a soft clip
/// at the 5' end itself counts into the offset.
pub open spec fn splice_offset(ops: Seq<CigarOp>, rev: bool) -> Option<int> {
    if ops.len() == 0 {
        None
    } else if op_from_5p(ops, rev, 0) is SoftClip {
        splice_from(ops, rev, 1, op_from_5p(ops, rev, 0).len() as int)
    } else {
        splice_from(ops, rev, 0, 0)
    }
}

/// One past the last aligned reference coordinate.
pub open spec fn end_pos_of(r: Record) -> int {
    r.pos + ref_span(r.cigar@, r.cigar@.len() as int)
}

/// The 5' coordinate: for the forward strand the start less a leading soft
/// clip, for the reverse strand the end plus a trailing soft clip.
pub open spec fn five_prime(r: Record) -> int {
    let ops = r.cigar@;
    if r.is_reverse {
        end_pos_of(r) + if ops.len() > 0 && ops.last() is SoftClip {
            ops.last().len() as int
        } else {
            0
        }
    } else {
        r.pos - if ops.len() > 0 && ops[0] is SoftClip {
            ops[0].len() as int
        } else {
            0
        }
    }
}

/// The position that a read is grouped on.
pub open spec fn position_of(r: Record, ignore_splice_pos: bool, use_tlen: bool) -> Position {
    Position {
        target: r.tid,
        pos: five_prime(r) as i64,
        tlen: if use_tlen {
            Some(r.insert_size)
        } else {
            None
        },
        is_spliced: match splice_offset(r.cigar@, r.is_reverse) {
            Some(o) => Some(
                if ignore_splice_pos {
                    0u64
                } else {
                    o as u64
                },
            ),
            None => None,
        },
        is_rev: r.is_reverse,
    }
}

proof fn lemma_ref_span_bounds(ops: Seq<CigarOp>, n: int)
    requires
        0 <= n <= ops.len(),
        forall|i: int| 0 <= i < ops.len() ==> #[trigger] ops[i].len() < MAX_OP_LEN,
    ensures
        0 <= ref_span(ops, n) <= n * MAX_OP_LEN,
    decreases n,
{
    if n > 0 {
        lemma_ref_span_bounds(ops, n - 1);
    }
}

/// One past the last aligned reference coordinate of a read.
pub fn end_pos(record: &Record) -> (r: i64)
    requires
        record.wf(),
    ensures
        r == end_pos_of(*record),
{
    let n = record.cigar.len();
    let mut span: i64 = 0;
    let mut i: usize = 0;
    while i < n
        invariant
            record.wf(),
            n == record.cigar@.len(),
            i <= n,
            span == ref_span(record.cigar@, i as int),
            0 <= span <= i * MAX_OP_LEN,
        decreases n - i,
    {
        let op = record.cigar[i];
        assert(record.cigar@[i as int].len() < MAX_OP_LEN);
        match op {
            CigarOp::Match(c) | CigarOp::Del(c) | CigarOp::RefSkip(c) | CigarOp::Equal(c)
            | CigarOp::Diff(c) => {
                span = span + c as i64;
            },
            _ => {},
        }
        i = i + 1;
    }
    record.pos + span
}

/// Takes a CIGAR string and finds the first splice position as an offset
/// from the read's 5' end.
pub fn find_splice(cigar: &Vec<CigarOp>, is_reversed: bool) -> (r: Option<u64>)
    requires
        cigar@.len() <= u32::MAX,
        forall|i: int| 0 <= i < cigar@.len() ==> #[trigger] cigar@[i].len() < MAX_OP_LEN,
    ensures
        r is None <==> splice_offset(cigar@, is_reversed) is None,
        r matches Some(o) ==> splice_offset(cigar@, is_reversed) == Some(o as int),
{
    let n = cigar.len();
    if n == 0 {
        return None;
    }
    let first = if is_reversed {
        cigar[n - 1]
    } else {
        cigar[0]
    };
    let mut offset: u64 = 0;
    let mut k: usize = 0;
    if let CigarOp::SoftClip(c) = first {
        offset = c as u64;
        k = 1;
    }
    while k < n
        invariant
            n == cigar@.len(),
            n <= u32::MAX,
            forall|i: int| 0 <= i < cigar@.len() ==> #[trigger] cigar@[i].len() < MAX_OP_LEN,
            k <= n,
            offset <= k * MAX_OP_LEN,
            splice_offset(cigar@, is_reversed) == splice_from(cigar@, is_reversed, k as int, offset as int),
        decreases n - k,
    {
        let op = if is_reversed {
            cigar[n - 1 - k]
        } else {
            cigar[k]
        };
        assert(op.len() < MAX_OP_LEN);
        match op {
            CigarOp::RefSkip(_) | CigarOp::SoftClip(_) => {
                return Some(offset);
            },
            CigarOp::Match(c) | CigarOp::Del(c) | CigarOp::Equal(c) | CigarOp::Diff(c) => {
                offset = offset + c as u64;
            },
            _ => {},
        }
        k = k + 1;
    }
    None
}

impl Position {
    /// Whether this position comes strictly before `other`.
    pub fn precedes(&self, other: &Position) -> (r: bool)
        ensures
            r == pos_lt(*self, *other),
    {
        if self.target != other.target {
            self.target < other.target
        } else if self.pos != other.pos {
            self.pos < other.pos
        } else if self.tlen != other.tlen {
            opt_less_i64(self.tlen, other.tlen)
        } else if self.is_spliced != other.is_spliced {
            opt_less_u64(self.is_spliced, other.is_spliced)
        } else {
            !self.is_rev && other.is_rev
        }
    }

    /// The position a read is grouped on. With `ignore_splice_pos` a splice
    /// offset only records that there is one (as 0); with `use_tlen` the
    /// template length is part of the key.
    pub fn new(record: &Record, ignore_splice_pos: bool, use_tlen: bool) -> (r: Position)
        requires
            record.wf(),
        ensures
            r == position_of(*record, ignore_splice_pos, use_tlen),
    {
        let n = record.cigar.len();
        let mut pos: i64;
        proof {
            lemma_ref_span_bounds(record.cigar@, n as int);
        }
        if record.is_reverse {
            pos = end_pos(record);
            if n > 0 {
                if let CigarOp::SoftClip(c) = record.cigar[n - 1] {
                    pos = pos + c as i64;
                }
            }
        } else {
            pos = record.pos;
            if n > 0 {
                if let CigarOp::SoftClip(c) = record.cigar[0] {
                    pos = pos - c as i64;
                }
            }
        }
        let mut is_spliced = find_splice(&record.cigar, record.is_reverse);
        if ignore_splice_pos && is_spliced.is_some() {
            is_spliced = Some(0);
        }
        let tlen = if use_tlen {
            Some(record.insert_size)
        } else {
            None
        };
        Position { target: record.tid, pos, tlen, is_spliced, is_rev: record.is_reverse }
    }
}

} // verus!
