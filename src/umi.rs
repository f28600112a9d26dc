//! UMIs: the barcode bases, encoded by `basebits` for fast Hamming distance.
use basebits::{hamming_dist_none, BaseBits};
use vstd::prelude::*;

verus! {

#[verifier::external_type_specification]
#[verifier::external_body]
pub struct ExBaseBits(BaseBits);

/// The most bases that one `BaseBits` code can hold.
pub const MAX_UMI_LEN: usize = 21;

/// The four bases that `BaseBits` encodes as themselves.
pub open spec fn is_acgt(c: u8) -> bool {
    c == 65u8 || c == 67u8 || c == 71u8 || c == 84u8
}

/// What a byte becomes once encoded: A, C, G and T stay, anything else is N.
pub open spec fn base_of(c: u8) -> u8 {
    if is_acgt(c) {
        c
    } else {
        78u8
    }
}

/// A byte string as the bases it encodes to.
pub open spec fn normalized(s: Seq<u8>) -> Seq<u8> {
    s.map_values(|c: u8| base_of(c))
}

/// Position `i` counts as a mismatch: the bases differ, or either one is an N.
pub open spec fn mismatch_at(a: Seq<u8>, b: Seq<u8>, i: int) -> bool {
    a[i] != b[i] || !is_acgt(a[i]) || !is_acgt(b[i])
}

/// Mismatches among the first `n` positions.
pub open spec fn mismatches_upto(a: Seq<u8>, b: Seq<u8>, n: int) -> nat
    decreases n,
{
    if n <= 0 {
        0
    } else {
        mismatches_upto(a, b, n - 1) + if mismatch_at(a, b, n - 1) {
            1nat
        } else {
            0nat
        }
    }
}

/// Hamming distance of two base strings of one length, where an N never matches.
pub open spec fn hamming(a: Seq<u8>, b: Seq<u8>) -> nat {
    mismatches_upto(a, b, a.len() as int)
}

/// The distance that basebits computes between two encoded base strings.
pub uninterp spec fn umi_distance(a: Seq<u8>, b: Seq<u8>) -> nat;

/// Distance between two UMIs: Hamming distance for UMIs of one length,
/// else whatever basebits computes.
pub open spec fn distance_of(a: Seq<u8>, b: Seq<u8>) -> nat {
    if a.len() == b.len() {
        hamming(a, b)
    } else {
        umi_distance(a, b)
    }
}

/// A UMI: its code, and the bases that the code encodes. Only `Umi::new`
/// builds one, from the code that basebits made of those bases, so the two
/// always agree; the wrappers below rely on that.
pub struct Umi {
    bits: BaseBits,
    bases: Ghost<Seq<u8>>,
}

/// Why a read's UMI could not be had.
#[derive(Debug, Clone, Copy, PartialEq, Eq, Structural)]
pub enum UmiError {
    /// The read carries no UMI where the configuration says to look.
    Missing,
    /// The UMI has more bases than one code can hold.
    TooLong,
}

impl View for Umi {
    type V = Seq<u8>;

    closed spec fn view(&self) -> Seq<u8> {
        self.bases@
    }
}

/// Relies on basebits::BaseBits::new: it refuses exactly the inputs longer
/// than `MAX_BASES` (21) bytes.
#[verifier::external_body]
fn encode(seq: &[u8]) -> (r: Result<BaseBits, &'static str>)
    ensures
        r is Ok <==> seq@.len() <= MAX_UMI_LEN,
{
    BaseBits::new(seq)
}

/// Relies on basebits::hamming_dist_none: its result depends on the encoded
/// bases alone, and on two codes of one length it counts the positions whose
/// bases differ or where either base is an N (an N is masked out of the code
/// comparison and counted on its own).
#[verifier::external_body]
fn distance(a: &Umi, b: &Umi) -> (r: u32)
    ensures
        r == umi_distance(a@, b@),
        a@.len() == b@.len() ==> r == hamming(a@, b@),
{
    hamming_dist_none(&a.bits, &b.bits)
}

/// Relies on the `PartialEq` that basebits derives for `BaseBits`: it compares
/// the code, the N mask and the length, which together fix the encoded bases.
#[verifier::external_body]
fn same_code(a: &Umi, b: &Umi) -> (r: bool)
    ensures
        r == (a@ == b@),
{
    a.bits == b.bits
}

/// Relies on basebits::BaseBits::decode: it spells out the encoded bases,
/// with N for each byte that was not A, C, G or T.
#[verifier::external_body]
fn decode(u: &Umi) -> (r: Vec<u8>)
    ensures
        r@ == u@,
{
    u.bits.decode()
}

impl Umi {
    /// Encodes the bytes of a UMI; only `MAX_UMI_LEN` bases fit.
    pub fn new(seq: &[u8]) -> (r: Result<Umi, UmiError>)
        ensures
            r is Ok <==> seq@.len() <= MAX_UMI_LEN,
            r matches Ok(u) ==> u@ == normalized(seq@),
            r matches Err(e) ==> e == UmiError::TooLong,
    {
        match encode(seq) {
            Ok(bits) => Ok(Umi { bits, bases: Ghost(normalized(seq@)) }),
            Err(_) => Err(UmiError::TooLong),
        }
    }

    /// The encoded bases, N standing for anything that was not A, C, G or T.
    pub fn bases(&self) -> (r: Vec<u8>)
        ensures
            r@ == self@,
    {
        decode(self)
    }

    /// Distance to another UMI: for one of the same length, the Hamming
    /// distance, with an N never matching.
    pub fn distance(&self, other: &Umi) -> (r: u32)
        ensures
            r == distance_of(self@, other@),
    {
        distance(self, other)
    }

    /// Whether two UMIs encode the same bases.
    pub fn same(&self, other: &Umi) -> (r: bool)
        ensures
            r == (self@ == other@),
    {
        same_code(self, other)
    }
}

} // verus!
