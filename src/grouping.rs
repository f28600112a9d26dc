//! Grouping of a bundle's reads by position and UMI.
use crate::position::{lemma_pos_order, pos_lt, position_of, Position};
use crate::record::{
    check_record, classify, lemma_tie_break_total_order, read_a_ge_b, read_ge, Record, RecordEvent,
};
use crate::umi::{normalized, Umi, UmiError, MAX_UMI_LEN};
use vstd::prelude::*;

verus! {

/// Settings of a run.
#[derive(Debug)]
pub struct Config {
    /// Largest Hamming distance at which two UMIs are adjacent.
    pub allowed_read_dist: u32,
    /// A UMI hangs off another only if the other's count is at least this
    /// factor times its own, less one.
    pub allowed_count_factor: u32,
    /// How many edges deep a cluster reaches from its seed.
    pub allowed_network_depth: usize,
    /// Name of the tag that holds the UMI.
    pub umi_tag: String,
    pub input_bam: String,
    pub output_bam: String,
    /// The UMI is the part of the read name after its last `_`.
    pub umi_in_read_id: bool,
    /// A splice offset only records that there is a splice.
    pub ignore_splice_pos: bool,
    /// Keep and label every read instead of one per cluster.
    pub group_only: bool,
    /// Paired-end input.
    pub is_paired: bool,
}

/// The reads behind one (position, UMI) pair, as indices into the bundle:
/// the best one (deduplication) or all of them in input order (grouping).
#[derive(Debug)]
pub enum ReadCollection {
    SingleRead(usize),
    ManyReads(Vec<usize>),
}

/// The reads of one (position, UMI) pair and how many there were.
#[derive(Debug)]
pub struct ReadFreq {
    pub read: ReadCollection,
    pub freq: u32,
}

/// The UMIs seen at one position, in order of first appearance.
pub type UmiMap = Vec<(Umi, ReadFreq)>;

/// The positions of a bundle in ascending order, each with its UMIs.
pub type ReadMap = Vec<(Position, UmiMap)>;

/// Counters of a run.
#[derive(Debug)]
pub struct Stats {
    pub reads_in: u32,
    pub reads_out: u32,
    pub reads_unmapped: u32,
    pub reads_unpaired: u32,
    pub mate_unmapped: u32,
    pub chimeric: u32,
}

impl Stats {
    /// All counters at zero.
    pub fn new() -> (r: Stats)
        ensures
            r.reads_in == 0,
            r.reads_out == 0,
            r.reads_unmapped == 0,
            r.reads_unpaired == 0,
            r.mate_unmapped == 0,
            r.chimeric == 0,
    {
        Stats {
            reads_in: 0,
            reads_out: 0,
            reads_unmapped: 0,
            reads_unpaired: 0,
            mate_unmapped: 0,
            chimeric: 0,
        }
    }

    /// Adds another set of counters into this one.
    pub fn update(&mut self, other: &Self)
        requires
            old(self).reads_in + other.reads_in <= u32::MAX,
            old(self).reads_out + other.reads_out <= u32::MAX,
            old(self).reads_unmapped + other.reads_unmapped <= u32::MAX,
            old(self).reads_unpaired + other.reads_unpaired <= u32::MAX,
            old(self).mate_unmapped + other.mate_unmapped <= u32::MAX,
            old(self).chimeric + other.chimeric <= u32::MAX,
        ensures
            final(self).reads_in == old(self).reads_in + other.reads_in,
            final(self).reads_out == old(self).reads_out + other.reads_out,
            final(self).reads_unmapped == old(self).reads_unmapped + other.reads_unmapped,
            final(self).reads_unpaired == old(self).reads_unpaired + other.reads_unpaired,
            final(self).mate_unmapped == old(self).mate_unmapped + other.mate_unmapped,
            final(self).chimeric == old(self).chimeric + other.chimeric,
    {
        self.reads_in = self.reads_in + other.reads_in;
        self.reads_out = self.reads_out + other.reads_out;
        self.reads_unmapped = self.reads_unmapped + other.reads_unmapped;
        self.reads_unpaired = self.reads_unpaired + other.reads_unpaired;
        self.mate_unmapped = self.mate_unmapped + other.mate_unmapped;
        self.chimeric = self.chimeric + other.chimeric;
    }
}

// ---- which reads are grouped, and on what ----

/// In paired-end mode the second read of a template waits for the rescue pass.
pub open spec fn skipped_mate(r: Record, cfg: Config) -> bool {
    cfg.is_paired && r.is_last_in_template
}

/// The read passes the filters and is grouped.
pub open spec fn kept(r: Record, cfg: Config) -> bool {
    &&& !skipped_mate(r, cfg)
    &&& (classify(r, cfg.is_paired) == RecordEvent::RecordMapped || classify(r, cfg.is_paired)
        == RecordEvent::RecordMateUnmapped)
}

/// Index of the last `_` among the first `k` bytes, or -1.
pub open spec fn last_sep(q: Seq<u8>, k: int) -> int
    decreases k,
{
    if k <= 0 {
        -1
    } else if q[k - 1] == 95u8 {
        k - 1
    } else {
        last_sep(q, k - 1)
    }
}

/// The part of a read name after its last `_` (all of it if there is none).
pub open spec fn name_suffix(q: Seq<u8>) -> Seq<u8> {
    q.subrange(last_sep(q, q.len() as int) + 1, q.len() as int)
}

/// Where the configuration says the UMI is: the read name's suffix, or the tag.
pub open spec fn umi_source(r: Record, cfg: Config) -> Option<Seq<u8>> {
    if cfg.umi_in_read_id {
        Some(name_suffix(r.qname@))
    } else {
        match r.umi_tag {
            Some(t) => Some(t@),
            None => None,
        }
    }
}

/// The read has a UMI that can be encoded.
pub open spec fn umi_ok(r: Record, cfg: Config) -> bool {
    match umi_source(r, cfg) {
        Some(s) => s.len() <= MAX_UMI_LEN,
        None => false,
    }
}

/// The error for a read whose UMI cannot be had.
pub open spec fn umi_error(r: Record, cfg: Config) -> UmiError {
    if umi_source(r, cfg) is None {
        UmiError::Missing
    } else {
        UmiError::TooLong
    }
}

/// The bases a read's UMI encodes to.
pub open spec fn key_umi(r: Record, cfg: Config) -> Seq<u8> {
    match umi_source(r, cfg) {
        Some(s) => normalized(s),
        None => Seq::empty(),
    }
}

/// The position a read is grouped on.
pub open spec fn key_pos(r: Record, cfg: Config) -> Position {
    position_of(r, cfg.ignore_splice_pos, cfg.is_paired)
}

/// The read is grouped under (`p`, `u`).
pub open spec fn matches_key(r: Record, cfg: Config, p: Position, u: Seq<u8>) -> bool {
    kept(r, cfg) && key_pos(r, cfg) == p && key_umi(r, cfg) == u
}

/// Indices, in input order, of the first `k` reads grouped under (`p`, `u`).
pub open spec fn members(recs: Seq<Record>, cfg: Config, p: Position, u: Seq<u8>, k: int) -> Seq<usize>
    decreases k,
{
    if k <= 0 {
        Seq::empty()
    } else if matches_key(recs[k - 1], cfg, p, u) {
        members(recs, cfg, p, u, k - 1).push((k - 1) as usize)
    } else {
        members(recs, cfg, p, u, k - 1)
    }
}

/// Member `t` of `m` is the representative: no member is better, and every
/// member before it is worse.
pub open spec fn first_best(recs: Seq<Record>, m: Seq<usize>, t: int) -> bool {
    &&& 0 <= t < m.len()
    &&& forall|j: int| 0 <= j < m.len() ==> #[trigger] read_ge(recs[m[t] as int], recs[m[j] as int])
    &&& forall|j: int| 0 <= j < t ==> !#[trigger] read_ge(recs[m[j] as int], recs[m[t] as int])
}

/// What a (position, UMI) pair keeps of its reads `m`.
pub open spec fn rep_ok(recs: Seq<Record>, cfg: Config, read: ReadCollection, m: Seq<usize>) -> bool {
    if cfg.group_only {
        read matches ReadCollection::ManyReads(v) && v@ == m
    } else {
        read matches ReadCollection::SingleRead(idx) && exists|t: int| first_best(recs, m, t) && m[t] == idx
    }
}

/// The entry for (`p`, `u`) is right for the first `k` reads.
pub open spec fn entry_ok(recs: Seq<Record>, cfg: Config, k: int, p: Position, u: Seq<u8>, rf: ReadFreq) -> bool {
    let m = members(recs, cfg, p, u, k);
    &&& m.len() > 0
    &&& rf.freq == m.len()
    &&& rep_ok(recs, cfg, rf.read, m)
}

/// The map has an entry for (`p`, `u`).
pub open spec fn has_entry(map: Seq<(Position, UmiMap)>, p: Position, u: Seq<u8>) -> bool {
    exists|j: int, a: int|
        0 <= j < map.len() && 0 <= a < map[j].1@.len() && map[j].0 == p && #[trigger] map[j].1@[a].0@ == u
}

/// Positions strictly ascend.
pub open spec fn sorted_positions(map: Seq<(Position, UmiMap)>) -> bool {
    forall|i: int, j: int| 0 <= i < j < map.len() ==> pos_lt(#[trigger] map[i].0, #[trigger] map[j].0)
}

/// The map is the grouping of the first `k` reads.
pub open spec fn map_ok(recs: Seq<Record>, cfg: Config, k: int, map: Seq<(Position, UmiMap)>) -> bool {
    &&& sorted_positions(map)
    &&& forall|i: int| 0 <= i < map.len() ==> (#[trigger] map[i]).1@.len() > 0
    &&& forall|i: int, a: int, b: int|
        0 <= i < map.len() && 0 <= a < b < map[i].1@.len() ==> #[trigger] map[i].1@[a].0@
            != #[trigger] map[i].1@[b].0@
    &&& forall|i: int, a: int|
        0 <= i < map.len() && 0 <= a < map[i].1@.len() ==> entry_ok(
            recs,
            cfg,
            k,
            map[i].0,
            #[trigger] map[i].1@[a].0@,
            map[i].1@[a].1,
        )
    &&& forall|i: int|
        0 <= i < k && kept(recs[i], cfg) ==> #[trigger] has_entry(
            map,
            key_pos(recs[i], cfg),
            key_umi(recs[i], cfg),
        )
}

pub(crate) proof fn lemma_members_bound(recs: Seq<Record>, cfg: Config, p: Position, u: Seq<u8>, k: int)
    requires
        0 <= k <= recs.len(),
        k <= usize::MAX,
    ensures
        members(recs, cfg, p, u, k).len() <= k,
        forall|t: int|
            0 <= t < members(recs, cfg, p, u, k).len() ==> #[trigger] members(recs, cfg, p, u, k)[t]
                < k && matches_key(recs[members(recs, cfg, p, u, k)[t] as int], cfg, p, u),
    decreases k,
{
    if k > 0 {
        lemma_members_bound(recs, cfg, p, u, k - 1);
        let prev = members(recs, cfg, p, u, k - 1);
        let cur = members(recs, cfg, p, u, k);
        assert forall|t: int| 0 <= t < cur.len() implies #[trigger] cur[t] < k && matches_key(
            recs[cur[t] as int],
            cfg,
            p,
            u,
        ) by {
            if t < prev.len() {
                assert(cur[t] == prev[t]);
            }
        }
    }
}

/// Reading one more record changes only the members of its own key.
proof fn lemma_members_step(recs: Seq<Record>, cfg: Config, p: Position, u: Seq<u8>, k: int)
    requires
        0 <= k < recs.len(),
    ensures
        matches_key(recs[k], cfg, p, u) ==> members(recs, cfg, p, u, k + 1) == members(
            recs,
            cfg,
            p,
            u,
            k,
        ).push(k as usize),
        !matches_key(recs[k], cfg, p, u) ==> members(recs, cfg, p, u, k + 1) == members(
            recs,
            cfg,
            p,
            u,
            k,
        ),
{
}

/// A read that is kept is among the members of its own key.
proof fn lemma_member_witness(recs: Seq<Record>, cfg: Config, p: Position, u: Seq<u8>, k: int)
    requires
        0 <= k <= recs.len(),
        members(recs, cfg, p, u, k).len() > 0,
    ensures
        exists|i: int| 0 <= i < k && matches_key(#[trigger] recs[i], cfg, p, u),
    decreases k,
{
    if !matches_key(recs[k - 1], cfg, p, u) {
        lemma_member_witness(recs, cfg, p, u, k - 1);
    }
}

/// Index of the entry at `p`, or where one for `p` belongs.
fn locate(map: &ReadMap, p: &Position) -> (r: (bool, usize))
    requires
        sorted_positions(map@),
    ensures
        r.1 <= map@.len(),
        r.0 ==> r.1 < map@.len() && map@[r.1 as int].0 == *p,
        !r.0 ==> forall|t: int| 0 <= t < r.1 ==> pos_lt(#[trigger] map@[t].0, *p),
        !r.0 ==> forall|t: int| r.1 <= t < map@.len() ==> pos_lt(*p, #[trigger] map@[t].0),
{
    let mut j = map.len();
    while j > 0 && p.precedes(&map[j - 1].0)
        invariant
            j <= map@.len(),
            sorted_positions(map@),
            forall|t: int| j <= t < map@.len() ==> pos_lt(*p, #[trigger] map@[t].0),
        decreases j,
    {
        j = j - 1;
    }
    if j > 0 && map[j - 1].0 == *p {
        (true, j - 1)
    } else {
        if j > 0 {
            proof {
                lemma_pos_order(map@[j - 1].0, *p, *p);
                assert forall|t: int| 0 <= t < j implies pos_lt(#[trigger] map@[t].0, *p) by {
                    lemma_pos_order(map@[t].0, map@[j - 1].0, *p);
                }
            }
        }
        (false, j)
    }
}

/// Index of the entry for `u`, if there is one.
fn find_umi(umis: &UmiMap, u: &Umi) -> (r: Option<usize>)
    ensures
        r is None ==> forall|a: int| 0 <= a < umis@.len() ==> #[trigger] umis@[a].0@ != u@,
        r matches Some(a) ==> a < umis@.len() && umis@[a as int].0@ == u@,
{
    let mut a: usize = 0;
    while a < umis.len()
        invariant
            a <= umis@.len(),
            forall|b: int| 0 <= b < a ==> #[trigger] umis@[b].0@ != u@,
        decreases umis@.len() - a,
    {
        if umis[a].0.same(u) {
            return Some(a);
        }
        a = a + 1;
    }
    None
}

/// The collection that a pair's first read starts.
fn first_collection(k: usize, group_only: bool) -> (r: ReadCollection)
    ensures
        group_only ==> (r matches ReadCollection::ManyReads(v) && v@ == seq![k]),
        !group_only ==> r == ReadCollection::SingleRead(k),
{
    if group_only {
        let mut v: Vec<usize> = Vec::new();
        v.push(k);
        ReadCollection::ManyReads(v)
    } else {
        ReadCollection::SingleRead(k)
    }
}

/// Adds read `k` to the collection of its (position, UMI) pair: appended to
/// the list, or in place of the representative if it is strictly better.
fn add_to_collection(
    read: ReadCollection,
    recs: &Vec<Record>,
    k: usize,
    m: Ghost<Seq<usize>>,
    cfg: Ghost<Config>,
) -> (r: ReadCollection)
    requires
        k < recs@.len(),
        rep_ok(recs@, cfg@, read, m@),
        forall|t: int| 0 <= t < m@.len() ==> #[trigger] m@[t] < k,
    ensures
        rep_ok(recs@, cfg@, r, m@.push(k)),
{
    match read {
        ReadCollection::ManyReads(v) => {
            let mut v = v;
            v.push(k);
            ReadCollection::ManyReads(v)
        },
        ReadCollection::SingleRead(idx) => {
            let ghost t = choose|t: int| first_best(recs@, m@, t) && m@[t] == idx;
            let ghost m2 = m@.push(k);
            assert(idx < k);
            if read_a_ge_b(&recs[idx], &recs[k]) {
                proof {
                    assert(m2[t] == m@[t]);
                    assert forall|j: int| 0 <= j < m2.len() implies #[trigger] read_ge(
                        recs@[m2[t] as int],
                        recs@[m2[j] as int],
                    ) by {
                        if j < m@.len() {
                            assert(m2[j] == m@[j]);
                        }
                    }
                    assert forall|j: int| 0 <= j < t implies !#[trigger] read_ge(
                        recs@[m2[j] as int],
                        recs@[m2[t] as int],
                    ) by {
                        assert(m2[j] == m@[j]);
                    }
                    assert(first_best(recs@, m2, t));
                }
                ReadCollection::SingleRead(idx)
            } else {
                proof {
                    let new_t = m@.len() as int;
                    lemma_tie_break_total_order(recs@[idx as int], recs@[k as int], recs@[k as int]);
                    assert forall|j: int| 0 <= j < m2.len() implies #[trigger] read_ge(
                        recs@[m2[new_t] as int],
                        recs@[m2[j] as int],
                    ) by {
                        if j < m@.len() {
                            assert(m2[j] == m@[j]);
                            assert(read_ge(recs@[idx as int], recs@[m@[j] as int]));
                            lemma_tie_break_total_order(recs@[k as int], recs@[idx as int], recs@[m@[j] as int]);
                        } else {
                            lemma_tie_break_total_order(recs@[k as int], recs@[k as int], recs@[k as int]);
                        }
                    }
                    assert forall|j: int| 0 <= j < new_t implies !#[trigger] read_ge(
                        recs@[m2[j] as int],
                        recs@[m2[new_t] as int],
                    ) by {
                        assert(m2[j] == m@[j]);
                        assert(read_ge(recs@[idx as int], recs@[m@[j] as int]));
                        lemma_tie_break_total_order(recs@[idx as int], recs@[m@[j] as int], recs@[k as int]);
                    }
                    assert(first_best(recs@, m2, new_t));
                    assert(m2[new_t] == k);
                }
                ReadCollection::SingleRead(k)
            }
        },
    }
}

/// Entries of other keys stay right when read `k` is added under (`p`, `u`).
proof fn lemma_entry_stable(
    recs: Seq<Record>,
    cfg: Config,
    k: int,
    p2: Position,
    u2: Seq<u8>,
    rf: ReadFreq,
    p: Position,
    u: Seq<u8>,
)
    requires
        0 <= k < recs.len(),
        entry_ok(recs, cfg, k, p2, u2, rf),
        matches_key(recs[k], cfg, p, u),
        p2 != p || u2 != u,
    ensures
        entry_ok(recs, cfg, k + 1, p2, u2, rf),
{
    lemma_members_step(recs, cfg, p2, u2, k);
}

/// A key without an entry has no reads yet.
proof fn lemma_absent_key(recs: Seq<Record>, cfg: Config, k: int, map: Seq<(Position, UmiMap)>, p: Position, u: Seq<u8>)
    requires
        0 <= k <= recs.len(),
        map_ok(recs, cfg, k, map),
        !has_entry(map, p, u),
    ensures
        members(recs, cfg, p, u, k).len() == 0,
{
    if members(recs, cfg, p, u, k).len() > 0 {
        lemma_member_witness(recs, cfg, p, u, k);
        let i = choose|i: int| 0 <= i < k && matches_key(#[trigger] recs[i], cfg, p, u);
        assert(has_entry(map, key_pos(recs[i], cfg), key_umi(recs[i], cfg)));
    }
}

/// The first read of a key makes a right entry.
proof fn lemma_fresh_entry(recs: Seq<Record>, cfg: Config, k: int, p: Position, u: Seq<u8>, rf: ReadFreq)
    requires
        0 <= k < recs.len(),
        k < usize::MAX,
        members(recs, cfg, p, u, k).len() == 0,
        matches_key(recs[k], cfg, p, u),
        rf.freq == 1,
        cfg.group_only ==> (rf.read matches ReadCollection::ManyReads(v) && v@ == seq![k as usize]),
        !cfg.group_only ==> rf.read == ReadCollection::SingleRead(k as usize),
    ensures
        entry_ok(recs, cfg, k + 1, p, u, rf),
{
    lemma_members_step(recs, cfg, p, u, k);
    assert(members(recs, cfg, p, u, k) =~= Seq::<usize>::empty());
    let m = members(recs, cfg, p, u, k + 1);
    assert(m =~= seq![k as usize]);
    if !cfg.group_only {
        lemma_tie_break_total_order(recs[k], recs[k], recs[k]);
        assert(first_best(recs, m, 0));
        assert(m[0] == k as usize);
    }
}

proof fn lemma_case_update(
    recs: Seq<Record>,
    cfg: Config,
    k: int,
    old_map: Seq<(Position, UmiMap)>,
    new_map: Seq<(Position, UmiMap)>,
    j: int,
    a: int,
)
    requires
        0 <= k < recs.len(),
        map_ok(recs, cfg, k, old_map),
        0 <= j < old_map.len(),
        0 <= a < old_map[j].1@.len(),
        matches_key(recs[k], cfg, old_map[j].0, old_map[j].1@[a].0@),
        new_map.len() == old_map.len(),
        forall|i: int| 0 <= i < old_map.len() && i != j ==> #[trigger] new_map[i] == old_map[i],
        new_map[j].0 == old_map[j].0,
        new_map[j].1@.len() == old_map[j].1@.len(),
        forall|b: int| 0 <= b < old_map[j].1@.len() && b != a ==> #[trigger] new_map[j].1@[b] == old_map[j].1@[b],
        new_map[j].1@[a].0 == old_map[j].1@[a].0,
        entry_ok(recs, cfg, k + 1, old_map[j].0, old_map[j].1@[a].0@, new_map[j].1@[a].1),
    ensures
        map_ok(recs, cfg, k + 1, new_map),
{
    let p = old_map[j].0;
    let u = old_map[j].1@[a].0@;
    assert forall|i: int| 0 <= i < new_map.len() implies #[trigger] new_map[i].0 == old_map[i].0 && new_map[i].1@.len() == old_map[i].1@.len() by {
        if i != j {
            assert(new_map[i] == old_map[i]);
        }
    }
    assert forall|i: int, b: int| 0 <= i < new_map.len() && 0 <= b < new_map[i].1@.len() implies #[trigger] new_map[i].1@[b].0 == old_map[i].1@[b].0 by {
        if i != j {
            assert(new_map[i] == old_map[i]);
        } else if b != a {
            assert(new_map[j].1@[b] == old_map[j].1@[b]);
        }
    }
    assert forall|i: int, b: int|
        0 <= i < new_map.len() && 0 <= b < new_map[i].1@.len() implies entry_ok(
        recs,
        cfg,
        k + 1,
        new_map[i].0,
        #[trigger] new_map[i].1@[b].0@,
        new_map[i].1@[b].1,
    ) by {
        if i != j {
            assert(new_map[i] == old_map[i]);
            lemma_pos_order(old_map[i].0, p, p);
            if i < j {
                assert(pos_lt(old_map[i].0, old_map[j].0));
            } else {
                assert(pos_lt(old_map[j].0, old_map[i].0));
            }
            assert(old_map[i].1@[b].0@ == new_map[i].1@[b].0@);
            lemma_entry_stable(recs, cfg, k, old_map[i].0, old_map[i].1@[b].0@, old_map[i].1@[b].1, p, u);
        } else if b != a {
            assert(new_map[j].1@[b] == old_map[j].1@[b]);
            if b < a {
                assert(old_map[j].1@[b].0@ != old_map[j].1@[a].0@);
            } else {
                assert(old_map[j].1@[a].0@ != old_map[j].1@[b].0@);
            }
            lemma_entry_stable(recs, cfg, k, p, old_map[j].1@[b].0@, old_map[j].1@[b].1, p, u);
        }
    }
    assert forall|i: int| 0 <= i < k + 1 && kept(recs[i], cfg) implies #[trigger] has_entry(
        new_map,
        key_pos(recs[i], cfg),
        key_umi(recs[i], cfg),
    ) by {
        if i < k {
            assert(has_entry(old_map, key_pos(recs[i], cfg), key_umi(recs[i], cfg)));
            let (j2, a2) = choose|j2: int, a2: int|
                0 <= j2 < old_map.len() && 0 <= a2 < old_map[j2].1@.len() && old_map[j2].0 == key_pos(recs[i], cfg)
                    && #[trigger] old_map[j2].1@[a2].0@ == key_umi(recs[i], cfg);
            assert(new_map[j2].1@[a2].0@ == key_umi(recs[i], cfg));
        } else {
            assert(new_map[j].1@[a].0@ == u);
        }
    }
}

proof fn lemma_case_push(
    recs: Seq<Record>,
    cfg: Config,
    k: int,
    old_map: Seq<(Position, UmiMap)>,
    new_map: Seq<(Position, UmiMap)>,
    j: int,
    e: (Umi, ReadFreq),
)
    requires
        0 <= k < recs.len(),
        map_ok(recs, cfg, k, old_map),
        0 <= j < old_map.len(),
        matches_key(recs[k], cfg, old_map[j].0, e.0@),
        forall|b: int| 0 <= b < old_map[j].1@.len() ==> #[trigger] old_map[j].1@[b].0@ != e.0@,
        new_map.len() == old_map.len(),
        forall|i: int| 0 <= i < old_map.len() && i != j ==> #[trigger] new_map[i] == old_map[i],
        new_map[j].0 == old_map[j].0,
        new_map[j].1@ == old_map[j].1@.push(e),
        members(recs, cfg, old_map[j].0, e.0@, k).len() == 0 ==> entry_ok(recs, cfg, k + 1, old_map[j].0, e.0@, e.1),
    ensures
        map_ok(recs, cfg, k + 1, new_map),
{
    let p = old_map[j].0;
    let u = e.0@;
    assert(!has_entry(old_map, p, u)) by {
        if has_entry(old_map, p, u) {
            let (j2, a2) = choose|j2: int, a2: int|
                0 <= j2 < old_map.len() && 0 <= a2 < old_map[j2].1@.len() && old_map[j2].0 == p
                    && #[trigger] old_map[j2].1@[a2].0@ == u;
            lemma_pos_order(p, p, p);
            if j2 < j {
                assert(pos_lt(old_map[j2].0, old_map[j].0));
            } else if j2 > j {
                assert(pos_lt(old_map[j].0, old_map[j2].0));
            }
        }
    }
    lemma_absent_key(recs, cfg, k, old_map, p, u);
    assert forall|i: int| 0 <= i < new_map.len() implies #[trigger] new_map[i].0 == old_map[i].0 by {
        if i != j {
            assert(new_map[i] == old_map[i]);
        }
    }
    assert forall|i: int, b: int| 0 <= i < new_map.len() && 0 <= b < old_map[i].1@.len() implies #[trigger] new_map[i].1@[b] == old_map[i].1@[b] by {
        if i != j {
            assert(new_map[i] == old_map[i]);
        }
    }
    assert forall|i: int| 0 <= i < new_map.len() implies (#[trigger] new_map[i]).1@.len() > 0 by {
        if i != j {
            assert(new_map[i] == old_map[i]);
        }
    }
    assert forall|i: int, a: int, b: int|
        0 <= i < new_map.len() && 0 <= a < b < new_map[i].1@.len() implies #[trigger] new_map[i].1@[a].0@
            != #[trigger] new_map[i].1@[b].0@ by {
        if i != j {
            assert(new_map[i] == old_map[i]);
        } else if b == old_map[j].1@.len() {
            assert(new_map[j].1@[b] == e);
            assert(new_map[j].1@[a] == old_map[j].1@[a]);
        } else {
            assert(new_map[j].1@[b] == old_map[j].1@[b]);
            assert(new_map[j].1@[a] == old_map[j].1@[a]);
        }
    }
    assert forall|i: int, b: int|
        0 <= i < new_map.len() && 0 <= b < new_map[i].1@.len() implies entry_ok(
        recs,
        cfg,
        k + 1,
        new_map[i].0,
        #[trigger] new_map[i].1@[b].0@,
        new_map[i].1@[b].1,
    ) by {
        if i != j {
            assert(new_map[i] == old_map[i]);
            lemma_pos_order(old_map[i].0, p, p);
            if i < j {
                assert(pos_lt(old_map[i].0, old_map[j].0));
            } else {
                assert(pos_lt(old_map[j].0, old_map[i].0));
            }
            lemma_entry_stable(recs, cfg, k, old_map[i].0, old_map[i].1@[b].0@, old_map[i].1@[b].1, p, u);
        } else if b < old_map[j].1@.len() {
            assert(new_map[j].1@[b] == old_map[j].1@[b]);
            lemma_entry_stable(recs, cfg, k, p, old_map[j].1@[b].0@, old_map[j].1@[b].1, p, u);
        } else {
            assert(new_map[j].1@[b] == e);
        }
    }
    assert forall|i: int| 0 <= i < k + 1 && kept(recs[i], cfg) implies #[trigger] has_entry(
        new_map,
        key_pos(recs[i], cfg),
        key_umi(recs[i], cfg),
    ) by {
        if i < k {
            assert(has_entry(old_map, key_pos(recs[i], cfg), key_umi(recs[i], cfg)));
            let (j2, a2) = choose|j2: int, a2: int|
                0 <= j2 < old_map.len() && 0 <= a2 < old_map[j2].1@.len() && old_map[j2].0 == key_pos(recs[i], cfg)
                    && #[trigger] old_map[j2].1@[a2].0@ == key_umi(recs[i], cfg);
            assert(new_map[j2].1@[a2] == old_map[j2].1@[a2]);
        } else {
            let last = old_map[j].1@.len() as int;
            assert(new_map[j].1@[last] == e);
        }
    }
}

proof fn lemma_case_insert(
    recs: Seq<Record>,
    cfg: Config,
    k: int,
    old_map: Seq<(Position, UmiMap)>,
    new_map: Seq<(Position, UmiMap)>,
    j: int,
    entry: (Position, UmiMap),
    e: (Umi, ReadFreq),
)
    requires
        0 <= k < recs.len(),
        map_ok(recs, cfg, k, old_map),
        0 <= j <= old_map.len(),
        forall|t: int| 0 <= t < j ==> pos_lt(#[trigger] old_map[t].0, entry.0),
        forall|t: int| j <= t < old_map.len() ==> pos_lt(entry.0, #[trigger] old_map[t].0),
        entry.1@ == seq![e],
        matches_key(recs[k], cfg, entry.0, e.0@),
        new_map == old_map.insert(j, entry),
        members(recs, cfg, entry.0, e.0@, k).len() == 0 ==> entry_ok(recs, cfg, k + 1, entry.0, e.0@, e.1),
    ensures
        map_ok(recs, cfg, k + 1, new_map),
{
    let p = entry.0;
    let u = e.0@;
    assert(!has_entry(old_map, p, u)) by {
        if has_entry(old_map, p, u) {
            let (j2, a2) = choose|j2: int, a2: int|
                0 <= j2 < old_map.len() && 0 <= a2 < old_map[j2].1@.len() && old_map[j2].0 == p
                    && #[trigger] old_map[j2].1@[a2].0@ == u;
            lemma_pos_order(p, p, p);
            if j2 < j {
                assert(pos_lt(old_map[j2].0, p));
            } else {
                assert(pos_lt(p, old_map[j2].0));
            }
        }
    }
    lemma_absent_key(recs, cfg, k, old_map, p, u);
    assert(new_map[j] == entry);
    assert forall|i: int| 0 <= i < new_map.len() && i != j implies #[trigger] new_map[i] == old_map[if i < j { i } else { i - 1 }] by {
    }
    assert forall|i: int, t: int| 0 <= i < t < new_map.len() implies pos_lt(#[trigger] new_map[i].0, #[trigger] new_map[t].0) by {
        if i < j && t < j {
        } else if i < j && t == j {
        } else if i < j && t > j {
            lemma_pos_order(old_map[i].0, p, old_map[t - 1].0);
        } else if i == j {
        } else {
        }
    }
    assert forall|i: int| 0 <= i < new_map.len() implies (#[trigger] new_map[i]).1@.len() > 0 by {
        if i != j {
            assert(new_map[i] == old_map[if i < j { i } else { i - 1 }]);
        }
    }
    assert forall|i: int, a: int, b: int|
        0 <= i < new_map.len() && 0 <= a < b < new_map[i].1@.len() implies #[trigger] new_map[i].1@[a].0@
            != #[trigger] new_map[i].1@[b].0@ by {
        if i != j {
            let oi = if i < j { i } else { i - 1 };
            assert(new_map[i] == old_map[oi]);
        }
    }
    assert forall|i: int, b: int|
        0 <= i < new_map.len() && 0 <= b < new_map[i].1@.len() implies entry_ok(
        recs,
        cfg,
        k + 1,
        new_map[i].0,
        #[trigger] new_map[i].1@[b].0@,
        new_map[i].1@[b].1,
    ) by {
        if i != j {
            let oi = if i < j { i } else { i - 1 };
            assert(new_map[i] == old_map[oi]);
            lemma_pos_order(old_map[oi].0, p, p);
            lemma_entry_stable(recs, cfg, k, old_map[oi].0, old_map[oi].1@[b].0@, old_map[oi].1@[b].1, p, u);
        } else {
            assert(new_map[j].1@[b] == e);
        }
    }
    assert forall|i: int| 0 <= i < k + 1 && kept(recs[i], cfg) implies #[trigger] has_entry(
        new_map,
        key_pos(recs[i], cfg),
        key_umi(recs[i], cfg),
    ) by {
        if i < k {
            assert(has_entry(old_map, key_pos(recs[i], cfg), key_umi(recs[i], cfg)));
            let (j2, a2) = choose|j2: int, a2: int|
                0 <= j2 < old_map.len() && 0 <= a2 < old_map[j2].1@.len() && old_map[j2].0 == key_pos(recs[i], cfg)
                    && #[trigger] old_map[j2].1@[a2].0@ == key_umi(recs[i], cfg);
            let nj = if j2 < j { j2 } else { j2 + 1 };
            assert(new_map[nj] == old_map[j2]);
            assert(new_map[nj].1@[a2].0@ == key_umi(recs[i], cfg));
        } else {
            assert(new_map[j].1@[0] == e);
        }
    }
}

/// A read that is not grouped leaves the map right for one more read.
proof fn lemma_skip(recs: Seq<Record>, cfg: Config, k: int, map: Seq<(Position, UmiMap)>)
    requires
        0 <= k < recs.len(),
        map_ok(recs, cfg, k, map),
        !kept(recs[k], cfg),
    ensures
        map_ok(recs, cfg, k + 1, map),
{
    assert forall|i: int, a: int|
        0 <= i < map.len() && 0 <= a < map[i].1@.len() implies entry_ok(
        recs,
        cfg,
        k + 1,
        map[i].0,
        #[trigger] map[i].1@[a].0@,
        map[i].1@[a].1,
    ) by {
        lemma_members_step(recs, cfg, map[i].0, map[i].1@[a].0@, k);
    }
}

/// Adds read `k`, grouped under (`p`, `umi`), to the map.
fn insert_read(map: &mut ReadMap, recs: &Vec<Record>, cfg: &Config, k: usize, p: Position, umi: Umi)
    requires
        map_ok(recs@, *cfg, k as int, old(map)@),
        k < recs@.len(),
        recs@.len() <= u32::MAX,
        matches_key(recs@[k as int], *cfg, p, umi@),
    ensures
        map_ok(recs@, *cfg, k + 1, final(map)@),
{
    let ghost old_map = map@;
    let (found, j) = locate(map, &p);
    if found {
        match find_umi(&map[j].1, &umi) {
            Some(a) => {
                let ghost m = members(recs@, *cfg, p, umi@, k as int);
                proof {
                    lemma_members_bound(recs@, *cfg, p, umi@, k as int);
                    lemma_members_step(recs@, *cfg, p, umi@, k as int);
                    assert(entry_ok(recs@, *cfg, k as int, p, old_map[j as int].1@[a as int].0@, old_map[j as int].1@[a as int].1));
                }
                let f = map[j].1[a].1.freq;
                let mut taken = ReadCollection::SingleRead(0);
                core::mem::swap(&mut map[j].1[a].1.read, &mut taken);
                let updated = add_to_collection(taken, recs, k, Ghost(m), Ghost(*cfg));
                map[j].1[a].1.read = updated;
                map[j].1[a].1.freq = f + 1;
                proof {
                    lemma_case_update(recs@, *cfg, k as int, old_map, map@, j as int, a as int);
                }
            },
            None => {
                let read = first_collection(k, cfg.group_only);
                let rf = ReadFreq { read, freq: 1 };
                let ghost e = (umi, rf);
                proof {
                    if members(recs@, *cfg, p, umi@, k as int).len() == 0 {
                        lemma_fresh_entry(recs@, *cfg, k as int, p, umi@, rf);
                    }
                }
                map[j].1.push((umi, rf));
                proof {
                    lemma_case_push(recs@, *cfg, k as int, old_map, map@, j as int, e);
                }
            },
        }
    } else {
        let read = first_collection(k, cfg.group_only);
        let rf = ReadFreq { read, freq: 1 };
        let ghost e = (umi, rf);
        proof {
            if members(recs@, *cfg, p, umi@, k as int).len() == 0 {
                lemma_fresh_entry(recs@, *cfg, k as int, p, umi@, rf);
            }
        }
        let mut umis: UmiMap = Vec::new();
        umis.push((umi, rf));
        let ghost entry = (p, umis);
        map.insert(j, (p, umis));
        proof {
            lemma_case_insert(recs@, *cfg, k as int, old_map, map@, j as int, entry, e);
        }
    }
}

/// The bytes of `src` from `start` on.
fn bytes_from(src: &Vec<u8>, start: usize) -> (r: Vec<u8>)
    requires
        start <= src@.len(),
    ensures
        r@ == src@.subrange(start as int, src@.len() as int),
{
    let mut out: Vec<u8> = Vec::new();
    let mut i = start;
    while i < src.len()
        invariant
            start <= i <= src@.len(),
            out@ == src@.subrange(start as int, i as int),
        decreases src@.len() - i,
    {
        out.push(src[i]);
        i = i + 1;
        assert(out@ =~= src@.subrange(start as int, i as int));
    }
    out
}

/// The read's UMI bytes: the read name after its last `_`, or the UMI tag.
pub fn get_tag(record: &Record, config: &Config) -> (r: Option<Vec<u8>>)
    ensures
        r is None <==> umi_source(*record, *config) is None,
        r matches Some(v) ==> umi_source(*record, *config) == Some(v@),
{
    if config.umi_in_read_id {
        let q = &record.qname;
        let mut k = q.len();
        while k > 0 && q[k - 1] != 95u8
            invariant
                k <= q@.len(),
                last_sep(q@, q@.len() as int) == last_sep(q@, k as int),
            decreases k,
        {
            k = k - 1;
        }
        assert(last_sep(q@, q@.len() as int) + 1 == k);
        Some(bytes_from(q, k))
    } else {
        match &record.umi_tag {
            Some(t) => Some(bytes_from(t, 0)),
            None => None,
        }
    }
}

/// The read passes the filters but its UMI cannot be had.
pub open spec fn bad(r: Record, cfg: Config) -> bool {
    kept(r, cfg) && !umi_ok(r, cfg)
}

/// Reads among the first `k` that are not held back as second mates and
/// classify as `ev`.
pub open spec fn count_event(recs: Seq<Record>, cfg: Config, ev: RecordEvent, k: int) -> nat
    decreases k,
{
    if k <= 0 {
        0
    } else {
        count_event(recs, cfg, ev, k - 1) + if !skipped_mate(recs[k - 1], cfg) && classify(
            recs[k - 1],
            cfg.is_paired,
        ) == ev {
            1nat
        } else {
            0nat
        }
    }
}

/// What grouping counts of the first `k` reads.
pub open spec fn stats_of(recs: Seq<Record>, cfg: Config, k: int, s: Stats) -> bool {
    &&& s.reads_in == k
    &&& s.reads_out == 0
    &&& s.reads_unmapped == count_event(recs, cfg, RecordEvent::RecordUnmapped, k)
    &&& s.reads_unpaired == count_event(recs, cfg, RecordEvent::RecordUnpaired, k)
    &&& s.mate_unmapped == count_event(recs, cfg, RecordEvent::RecordMateUnmapped, k)
    &&& s.chimeric == count_event(recs, cfg, RecordEvent::RecordChimeric, k)
}

/// Groups reads by position and UMI. Second mates (paired-end) are held
/// back; unmapped, unpaired and chimeric reads are counted and dropped; a
/// read whose mate is unmapped is counted and kept. Fails on the first kept
/// read whose UMI is missing or too long.
pub fn group_reads(records: &Vec<Record>, config: &Config) -> (r: Result<(ReadMap, Stats), UmiError>)
    requires
        records@.len() <= u32::MAX,
        forall|i: int| 0 <= i < records@.len() ==> (#[trigger] records@[i]).wf(),
    ensures
        r is Ok <==> forall|i: int| 0 <= i < records@.len() ==> !bad(#[trigger] records@[i], *config),
        r matches Err(e) ==> exists|i: int|
            0 <= i < records@.len() && bad(#[trigger] records@[i], *config) && e == umi_error(
                records@[i],
                *config,
            ) && forall|j: int| 0 <= j < i ==> !bad(#[trigger] records@[j], *config),
        r matches Ok((map, stats)) ==> map_ok(records@, *config, records@.len() as int, map@)
            && stats_of(records@, *config, records@.len() as int, stats),
{
    let n = records.len();
    let mut map: ReadMap = Vec::new();
    let mut stats = Stats::new();
    let mut k: usize = 0;
    while k < n
        invariant
            n == records@.len(),
            n <= u32::MAX,
            forall|i: int| 0 <= i < records@.len() ==> (#[trigger] records@[i]).wf(),
            k <= n,
            map_ok(records@, *config, k as int, map@),
            forall|j: int| 0 <= j < k ==> !bad(#[trigger] records@[j], *config),
            stats_of(records@, *config, k as int, stats),
            stats.reads_unmapped <= k,
            stats.reads_unpaired <= k,
            stats.mate_unmapped <= k,
            stats.chimeric <= k,
        decreases n - k,
    {
        let record = &records[k];
        stats.reads_in = stats.reads_in + 1;
        if config.is_paired && record.is_last_in_template {
            proof {
                lemma_skip(records@, *config, k as int, map@);
            }
            k = k + 1;
            continue;
        }
        let event = check_record(record, config.is_paired);
        match event {
            RecordEvent::RecordMapped => {},
            RecordEvent::RecordUnmapped => {
                stats.reads_unmapped = stats.reads_unmapped + 1;
                proof {
                    lemma_skip(records@, *config, k as int, map@);
                }
                k = k + 1;
                continue;
            },
            RecordEvent::RecordUnpaired => {
                stats.reads_unpaired = stats.reads_unpaired + 1;
                proof {
                    lemma_skip(records@, *config, k as int, map@);
                }
                k = k + 1;
                continue;
            },
            RecordEvent::RecordMateUnmapped => {
                stats.mate_unmapped = stats.mate_unmapped + 1;
            },
            RecordEvent::RecordChimeric => {
                stats.chimeric = stats.chimeric + 1;
                proof {
                    lemma_skip(records@, *config, k as int, map@);
                }
                k = k + 1;
                continue;
            },
        }
        let tag = match get_tag(record, config) {
            Some(t) => t,
            None => {
                return Err(UmiError::Missing);
            },
        };
        let umi = match Umi::new(tag.as_slice()) {
            Ok(u) => u,
            Err(e) => {
                return Err(e);
            },
        };
        let position = Position::new(record, config.ignore_splice_pos, config.is_paired);
        insert_read(&mut map, records, config, k, position, umi);
        k = k + 1;
    }
    Ok((map, stats))
}

} // verus!
