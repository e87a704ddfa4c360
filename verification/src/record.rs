//! Layout of the data of an SPK type 2 / type 3 segment.
//!
//! The data of a segment occupies the doubles `start_idx ..= end_idx`
//! (1-based). It is a run of equal-sized records followed by four doubles:
//! the start epoch of the first record, the length of the interval each
//! record covers, the record size `RSIZE` (in doubles) and the number of
//! records `N`. Each record holds the midpoint and the radius of its
//! interval, then the Chebyshev coefficients: `(RSIZE - 2) / components`
//! of them for each of the `components` polynomial sets (X, Y, Z, and for
//! type 3 also the velocities), set after set.

use vstd::prelude::*;

use crate::bytes::{spec_u64_at, read_u64, double_round_to_usize, double_bits_round_to_usize};
use crate::spk::BspSegment;

verus! {

/// The reader's byte offsets for a segment — `(start_idx - 1) * 8` for its
/// data and `end_idx * 8 - 32` for its trailing four doubles — can be
/// computed without overflow or underflow.
pub open spec fn segment_layout_ok(seg: BspSegment) -> bool {
    &&& seg.start_idx >= 1
    &&& (seg.start_idx - 1) * 8 <= usize::MAX
    &&& seg.end_idx * 8 <= usize::MAX
    &&& seg.end_idx * 8 >= 32
}

/// Byte offset of the first record of a segment.
pub open spec fn data_start(seg: BspSegment) -> int {
    (seg.start_idx - 1) * 8
}

/// Byte offset of the four doubles that close a segment's data.
pub open spec fn meta_offset(seg: BspSegment) -> int {
    seg.end_idx * 8 - 32
}

/// Whether a segment's byte offsets can be computed.
pub fn segment_layout_fits(seg: &BspSegment) -> (r: bool)
    ensures
        r == segment_layout_ok(*seg),
{
    seg.start_idx >= 1 && seg.start_idx - 1 <= usize::MAX / 8 && seg.end_idx <= usize::MAX / 8
        && seg.end_idx >= 4
}

/// The byte offsets `(data_start, meta_offset)` of a segment.
pub fn segment_offsets(seg: &BspSegment) -> (r: (usize, usize))
    requires
        segment_layout_ok(*seg),
    ensures
        r.0 as int == data_start(*seg),
        r.1 as int == meta_offset(*seg),
{
    let data_start = (seg.start_idx - 1) * 8;
    let data_end = seg.end_idx * 8;
    (data_start, data_end - 32)
}

/// The four doubles that close a segment's data.
#[derive(Debug, Clone, Copy, PartialEq, Eq)]
pub struct SegmentMeta {
    /// Start of the first record's interval, seconds past J2000 (IEEE-754 bits).
    pub init_epoch_bits: u64,
    /// Length of each record's interval in seconds (IEEE-754 bits).
    pub intlen_bits: u64,
    /// Record size in doubles (the stored double, rounded).
    pub rsize: usize,
    /// Number of records (the stored double, rounded).
    pub n: usize,
}

/// The segment metadata stored at byte `off`.
pub open spec fn spec_segment_meta(data: Seq<u8>, off: int, le: bool) -> SegmentMeta {
    SegmentMeta {
        init_epoch_bits: spec_u64_at(data, off, le) as u64,
        intlen_bits: spec_u64_at(data, off + 8, le) as u64,
        rsize: double_round_to_usize(spec_u64_at(data, off + 16, le) as u64) as usize,
        n: double_round_to_usize(spec_u64_at(data, off + 24, le) as u64) as usize,
    }
}

/// Decodes the segment metadata stored at byte `off` of `data`.
pub fn decode_segment_meta(data: &[u8], off: usize, is_le: bool) -> (r: SegmentMeta)
    requires
        off + 32 <= data@.len(),
    ensures
        r == spec_segment_meta(data@, off as int, is_le),
{
    let _len = data.len();
    let init_epoch_bits = read_u64(data, off, is_le);
    let intlen_bits = read_u64(data, off + 8, is_le);
    let rsize = double_bits_round_to_usize(read_u64(data, off + 16, is_le));
    let n = double_bits_round_to_usize(read_u64(data, off + 24, is_le));
    SegmentMeta { init_epoch_bits, intlen_bits, rsize, n }
}

/// The record index the reader uses: the index computed from the time
/// (`raw`), clamped to `0 ..= n - 1` as
/// `raw.max(0).min((n as isize) - 1) as usize` clamps it.
pub open spec fn clamp_record_index(raw: isize, n: usize) -> int {
    let hi = (n as isize) - 1;
    let low_clamped = if raw < 0 {
        0
    } else {
        raw as int
    };
    let clamped = if low_clamped > hi {
        hi
    } else {
        low_clamped
    };
    (clamped as usize) as int
}

/// The record index can be clamped: `(n as isize) - 1` does not overflow.
pub open spec fn clamp_ok(n: usize) -> bool {
    (n as isize) != isize::MIN
}

/// Clamps the record index computed from the time to `0 ..= n - 1`, as
/// `raw.max(0).min((n as isize) - 1) as usize` does.
pub fn record_index(raw: isize, n: usize) -> (r: usize)
    requires
        clamp_ok(n),
    ensures
        r as int == clamp_record_index(raw, n),
{
    let hi: isize = (n as isize) - 1;
    let low_clamped: isize = if raw < 0 {
        0
    } else {
        raw
    };
    let clamped: isize = if low_clamped > hi {
        hi
    } else {
        low_clamped
    };
    clamped as usize
}

/// The arithmetic that locates record `idx` cannot overflow
/// (`data_start + idx * rsize * 8`, `rsize - 2`), and the number of
/// polynomial sets is not zero.
pub open spec fn record_layout_ok(data_start: usize, rsize: usize, idx: usize, components: usize) -> bool {
    &&& idx * rsize <= usize::MAX
    &&& idx * rsize * 8 <= usize::MAX
    &&& data_start + idx * rsize * 8 <= usize::MAX
    &&& rsize >= 2
    &&& components > 0
}

/// Whether record `idx` can be located.
pub fn record_layout_fits(data_start: usize, rsize: usize, idx: usize, components: usize) -> (r: bool)
    ensures
        r == record_layout_ok(data_start, rsize, idx, components),
{
    if rsize < 2 || components == 0 {
        return false;
    }
    match idx.checked_mul(rsize) {
        None => false,
        Some(p) => match p.checked_mul(8) {
            None => false,
            Some(q) => data_start.checked_add(q).is_some(),
        },
    }
}

/// Where a record lies and how many coefficients each of its polynomials has.
#[derive(Debug, Clone, Copy, PartialEq, Eq)]
pub struct RecordLayout {
    /// Byte offset of the record.
    pub offset: usize,
    /// Coefficients per polynomial: `(rsize - 2) / components`.
    pub ncoeff: usize,
}

/// Locates record `idx` (0-based) of a segment whose data starts at byte
/// `data_start` and whose records are `rsize` doubles long.
pub fn record_layout(data_start: usize, rsize: usize, idx: usize, components: usize) -> (r: RecordLayout)
    requires
        record_layout_ok(data_start, rsize, idx, components),
    ensures
        r.offset as int == data_start + idx * rsize * 8,
        r.ncoeff as int == (rsize - 2) / components as int,
{
    let offset = data_start + idx * rsize * 8;
    let ncoeff = (rsize - 2) / components;
    RecordLayout { offset, ncoeff }
}

/// One record: the midpoint and radius of its interval (seconds, IEEE-754
/// bits) and the coefficients of its first polynomial sets.
#[derive(Debug)]
pub struct RecordData {
    pub mid_bits: u64,
    pub radius_bits: u64,
    /// `coefficients[k][i]`: coefficient `i` of polynomial set `k`.
    pub coefficients: Vec<Vec<u64>>,
}

/// The bytes of a record at `off` with `sets` polynomial sets of `ncoeff`
/// coefficients each lie within `data`.
pub open spec fn record_in_bounds(data: Seq<u8>, off: int, ncoeff: int, sets: int) -> bool {
    off + 16 + sets * ncoeff * 8 <= data.len()
}

/// Coefficient `i` of polynomial set `k` of the record at byte `off`.
pub open spec fn spec_coefficient(data: Seq<u8>, off: int, ncoeff: int, k: int, i: int, le: bool) -> u64 {
    spec_u64_at(data, off + 16 + (k * ncoeff + i) * 8, le) as u64
}

proof fn lemma_coefficient_in_bounds(off: int, ncoeff: int, sets: int, k: int, i: int)
    requires
        0 <= k < sets,
        0 <= i < ncoeff,
    ensures
        off + 16 <= off + 16 + (k * ncoeff + i) * 8,
        off + 16 + (k * ncoeff + i) * 8 + 8 <= off + 16 + sets * ncoeff * 8,
{
    assert(0 <= k * ncoeff) by (nonlinear_arith)
        requires
            0 <= k,
            0 <= ncoeff,
    ;
    assert((k * ncoeff + i) * 8 + 8 <= sets * ncoeff * 8) by (nonlinear_arith)
        requires
            0 <= k < sets,
            0 <= i < ncoeff,
    ;
}

/// Reads the record at byte `off` of `data`: midpoint, radius, and `sets`
/// polynomial sets of `ncoeff` coefficients each.
pub fn decode_record(data: &[u8], off: usize, ncoeff: usize, sets: usize, is_le: bool) -> (r:
    RecordData)
    requires
        record_in_bounds(data@, off as int, ncoeff as int, sets as int),
    ensures
        r.mid_bits as int == spec_u64_at(data@, off as int, is_le),
        r.radius_bits as int == spec_u64_at(data@, off + 8, is_le),
        r.coefficients@.len() == sets,
        forall|k: int|
            0 <= k < sets ==> (#[trigger] r.coefficients@[k])@.len() == ncoeff && forall|i: int|
                0 <= i < ncoeff ==> #[trigger] r.coefficients@[k]@[i] == spec_coefficient(
                    data@,
                    off as int,
                    ncoeff as int,
                    k,
                    i,
                    is_le,
                ),
{
    let len = data.len();
    let mid_bits = read_u64(data, off, is_le);
    let radius_bits = read_u64(data, off + 8, is_le);
    let base = off + 16;
    let mut coefficients: Vec<Vec<u64>> = Vec::new();
    let mut k: usize = 0;
    while k < sets
        invariant
            len == data@.len(),
            record_in_bounds(data@, off as int, ncoeff as int, sets as int),
            base == off + 16,
            k <= sets,
            coefficients@.len() == k,
            forall|kk: int|
                0 <= kk < k ==> (#[trigger] coefficients@[kk])@.len() == ncoeff && forall|i: int|
                    0 <= i < ncoeff ==> #[trigger] coefficients@[kk]@[i] == spec_coefficient(
                        data@,
                        off as int,
                        ncoeff as int,
                        kk,
                        i,
                        is_le,
                    ),
        decreases sets - k,
    {
        let mut set: Vec<u64> = Vec::new();
        let mut i: usize = 0;
        while i < ncoeff
            invariant
                len == data@.len(),
                record_in_bounds(data@, off as int, ncoeff as int, sets as int),
                base == off + 16,
                k < sets,
                i <= ncoeff,
                set@.len() == i,
                forall|ii: int|
                    0 <= ii < i ==> #[trigger] set@[ii] == spec_coefficient(
                        data@,
                        off as int,
                        ncoeff as int,
                        k as int,
                        ii,
                        is_le,
                    ),
            decreases ncoeff - i,
        {
            proof {
                lemma_coefficient_in_bounds(off as int, ncoeff as int, sets as int, k as int, i as int);
            }
            let pos = base + (k * ncoeff + i) * 8;
            set.push(read_u64(data, pos, is_le));
            i = i + 1;
        }
        coefficients.push(set);
        k = k + 1;
    }
    RecordData { mid_bits, radius_bits, coefficients }
}

} // verus!
