//! The DAF container: the file record and the chain of summary records.
//!
//! A DAF file is a sequence of 1024-byte records. The first (the file record)
//! holds the identification word `LOCIDW` (bytes 0..8), the summary sizes
//! `ND` and `NI` (32-bit integers at 8 and 12), the internal file name
//! `LOCIFN` (bytes 16..76), the number of the first summary record `FWARD`
//! (at 76) and the binary format `LOCFMT` (bytes 88..96).

use vstd::prelude::*;

use crate::bytes::{
    spec_i32_at,
    spec_u64_at,
    read_i32,
    read_u64,
    double_round_to_usize,
    double_bits_round_to_usize,
};
use crate::spk::BspSegment;
use crate::error::BspError;
use crate::text::{str_from_utf8, utf8_or_empty, trim, trim_str, str_starts_with, str_equal};

verus! {

/// Size in bytes of one DAF record.
pub const RECORD_SIZE: usize = 1024;

/// `s` begins with `prefix`.
pub open spec fn seq_starts_with(s: Seq<char>, prefix: Seq<char>) -> bool {
    prefix.len() <= s.len() && s.subrange(0, prefix.len() as int) == prefix
}

/// The identification word names an SPK (or EK) DAF file.
pub open spec fn locidw_accepted(locidw: Seq<char>) -> bool {
    seq_starts_with(locidw, "DAF/SPK"@) || seq_starts_with(locidw, "DAF/EK"@)
}

/// The text of the identification word `LOCIDW` (bytes 0..8).
pub open spec fn file_locidw(data: Seq<u8>) -> Seq<char> {
    utf8_or_empty(data.subrange(0, 8))
}

/// The file stores its numbers little-endian: its `LOCFMT` field (bytes
/// 88..96), trimmed, is anything but `BIG-IEEE`.
pub open spec fn file_is_le(data: Seq<u8>) -> bool {
    trim(utf8_or_empty(data.subrange(88, 96))) != "BIG-IEEE"@
}

/// The internal file name `LOCIFN` (bytes 16..76), trimmed.
pub open spec fn file_name(data: Seq<u8>) -> Seq<char> {
    trim(utf8_or_empty(data.subrange(16, 76)))
}

/// The message of the error for a file shorter than one record.
pub open spec fn too_short_message() -> Seq<char> {
    "ファイルサイズが小さすぎます"@
}

/// The message of the error for an unknown identification word.
pub open spec fn locidw_message(locidw: Seq<char>) -> Seq<char> {
    "LOCIDW=\""@ + trim(locidw) + "\""@
}

/// `parse_file_record` accepts `data`: it holds a whole record and its
/// identification word is accepted.
pub open spec fn file_record_accepted(data: Seq<u8>) -> bool {
    data.len() >= RECORD_SIZE && locidw_accepted(file_locidw(data))
}

/// The message of the `InvalidFormat` error for a rejected file record.
pub open spec fn file_record_error(data: Seq<u8>) -> Seq<char> {
    if data.len() < RECORD_SIZE {
        too_short_message()
    } else {
        locidw_message(file_locidw(data))
    }
}

/// `ND`, the number of doubles in a summary, as the reader converts it.
pub open spec fn file_nd(data: Seq<u8>) -> usize {
    spec_i32_at(data, 8, file_is_le(data)) as usize
}

/// `NI`, the number of integers in a summary, as the reader converts it.
pub open spec fn file_ni(data: Seq<u8>) -> usize {
    spec_i32_at(data, 12, file_is_le(data)) as usize
}

/// `FWARD`, the record number of the first summary record.
pub open spec fn file_first_summary(data: Seq<u8>) -> usize {
    spec_i32_at(data, 76, file_is_le(data)) as usize
}

/// The text decoded from `bytes`, or the empty text where they are not UTF-8.
fn str_from_utf8_or_empty(bytes: &[u8]) -> (r: &str)
    ensures
        r@ == utf8_or_empty(bytes@),
{
    match str_from_utf8(bytes) {
        Some(s) => s,
        None => {
            proof {
                reveal_strlit("");
            }
            ""
        },
    }
}

/// Parses the DAF file record at the start of `data`.
///
/// Returns `(ND, NI, FWARD, little_endian, LOCIFN)`: the three integers read
/// in the file's byte order and converted with `as usize`, whether the file
/// is little-endian, and the trimmed internal file name. Fails with
/// `InvalidFormat` when `data` is shorter than one record or `LOCIDW` does
/// not begin with `DAF/SPK` or `DAF/EK`.
pub fn parse_file_record(data: &[u8]) -> (r: Result<(usize, usize, usize, bool, String), BspError>)
    ensures
        data@.len() < RECORD_SIZE ==> (r matches Err(BspError::InvalidFormat(m))
            && m@ == too_short_message()),
        data@.len() >= RECORD_SIZE && !locidw_accepted(file_locidw(data@)) ==> (r matches Err(
            BspError::InvalidFormat(m),
        ) && m@ == locidw_message(file_locidw(data@))),
        file_record_accepted(data@) ==> (r matches Ok((nd, ni, fwd, le, name)) && {
            &&& le == file_is_le(data@)
            &&& nd == file_nd(data@)
            &&& ni == file_ni(data@)
            &&& fwd == file_first_summary(data@)
            &&& name@ == file_name(data@)
        }),
{
    if data.len() < RECORD_SIZE {
        let msg = String::from_str("ファイルサイズが小さすぎます");
        return Err(BspError::InvalidFormat(msg));
    }
    let locidw = str_from_utf8_or_empty(&data[0..8]);
    if !str_starts_with(locidw, "DAF/SPK") && !str_starts_with(locidw, "DAF/EK") {
        let mut msg = String::from_str("LOCIDW=\"");
        msg.append(trim_str(locidw));
        msg.append("\"");
        return Err(BspError::InvalidFormat(msg));
    }
    let locfmt = trim_str(str_from_utf8_or_empty(&data[88..96]));
    let is_le = !str_equal(locfmt, "BIG-IEEE");

    let nd = read_i32(data, 8, is_le) as usize;
    let ni = read_i32(data, 12, is_le) as usize;
    let first_sum_rec = read_i32(data, 76, is_le) as usize;

    let locifn = String::from_str(trim_str(str_from_utf8_or_empty(&data[16..76])));
    Ok((nd, ni, first_sum_rec, is_le, locifn))
}

} // verus!

verus! {

/// The summary size `ND + ceil(NI / 2)` (in doubles), and that size in bytes,
/// can be computed without overflow.
pub open spec fn summary_layout_ok(nd: usize, ni: usize) -> bool {
    &&& ni + 1 <= usize::MAX
    &&& nd + (ni + 1) / 2 <= usize::MAX
    &&& (nd + (ni + 1) / 2) * 8 <= usize::MAX
}

/// Size in bytes of one summary: `ND` doubles then `NI` integers, padded to
/// a whole number of doubles.
pub open spec fn summary_bytes(nd: usize, ni: usize) -> int {
    (nd + (ni + 1) / 2) * 8
}

/// The segment described by the summary that starts at byte `base`: the
/// start and end times are its first two doubles; target, center, type and
/// the first and last data addresses are its integers 0, 1, 3, 4 and 5.
pub open spec fn summary_at(data: Seq<u8>, base: int, nd: usize, le: bool) -> BspSegment {
    let ib = base + nd * 8;
    BspSegment {
        target: spec_i32_at(data, ib, le) as i32,
        center: spec_i32_at(data, ib + 4, le) as i32,
        spk_type: spec_i32_at(data, ib + 12, le) as i32,
        start_sec_bits: spec_u64_at(data, base, le) as u64,
        end_sec_bits: spec_u64_at(data, base + 8, le) as u64,
        start_idx: spec_i32_at(data, ib + 16, le) as usize,
        end_idx: spec_i32_at(data, ib + 20, le) as usize,
    }
}

/// The number of the next summary record (0 when there is none), stored
/// as a double at the start of the summary record at byte `off`.
pub open spec fn record_next(data: Seq<u8>, off: int, le: bool) -> int {
    double_round_to_usize(spec_u64_at(data, off, le) as u64)
}

/// The number of summaries in the summary record at byte `off`, stored as
/// a double at byte `off + 16`.
pub open spec fn record_count(data: Seq<u8>, off: int, le: bool) -> int {
    double_round_to_usize(spec_u64_at(data, off + 16, le) as u64)
}

/// Byte at which summary `i` of the summary record at byte `off` starts.
pub open spec fn summary_base(off: int, i: int, nd: usize, ni: usize) -> int {
    off + 24 + i * summary_bytes(nd, ni)
}

/// Every byte that reading the summary record at byte `off` touches lies
/// within `data`: the control words and all of its summaries.
#[verifier::opaque]
pub open spec fn record_in_bounds(data: Seq<u8>, off: int, nd: usize, ni: usize, le: bool) -> bool {
    &&& 0 <= off
    &&& off + 24 <= data.len()
    &&& record_count(data, off, le) == 0 || summary_base(
        off,
        record_count(data, off, le) - 1,
        nd,
        ni,
    ) + nd * 8 + 24 <= data.len()
}

/// The segments described by the summary record at byte `off`, in order.
#[verifier::opaque]
pub open spec fn record_segments(data: Seq<u8>, off: int, nd: usize, ni: usize, le: bool) -> Seq<
    BspSegment,
> {
    Seq::new(
        record_count(data, off, le) as nat,
        |i: int| summary_at(data, summary_base(off, i, nd, ni), nd, le),
    )
}

proof fn lemma_summary_in_bounds(data: Seq<u8>, off: int, nd: usize, ni: usize, le: bool, i: int)
    requires
        record_in_bounds(data, off, nd, ni, le),
        0 <= i < record_count(data, off, le),
    ensures
        off + 24 <= summary_base(off, i, nd, ni),
        summary_base(off, i, nd, ni) + nd * 8 + 24 <= data.len(),
        summary_base(off, i, nd, ni) + summary_bytes(nd, ni) == summary_base(off, i + 1, nd, ni),
{
    reveal(record_in_bounds);
    let n = record_count(data, off, le);
    let sb = summary_bytes(nd, ni);
    assert(0 <= i * sb <= (n - 1) * sb) by (nonlinear_arith)
        requires
            0 <= i <= n - 1,
            0 <= sb,
    ;
    assert(i * sb + sb == (i + 1) * sb) by (nonlinear_arith);
}

proof fn lemma_record_header(data: Seq<u8>, off: int, nd: usize, ni: usize, le: bool)
    requires
        record_in_bounds(data, off, nd, ni, le),
    ensures
        0 <= off,
        off + 24 <= data.len(),
{
    reveal(record_in_bounds);
}

/// Whether the summary record at byte `off` of `data` can be read: all the
/// bytes it describes lie within `data`.
pub fn summary_record_fits(data: &[u8], off: usize, nd: usize, ni: usize, is_le: bool) -> (r: bool)
    requires
        summary_layout_ok(nd, ni),
    ensures
        r == record_in_bounds(data@, off as int, nd, ni, is_le),
{
    reveal(record_in_bounds);
    if off > data.len() || data.len() - off < 24 {
        return false;
    }
    let count = double_bits_round_to_usize(read_u64(data, off + 16, is_le));
    if count == 0 {
        return true;
    }
    let sb = (nd + (ni + 1) / 2) * 8;
    let span = match (count - 1).checked_mul(sb) {
        Some(v) => v,
        None => {
            proof {
                assert((count - 1) * sb + off + 24 + nd * 8 + 24 > data@.len());
            }
            return false;
        },
    };
    let room = data.len() - off - 24;
    if span > room {
        return false;
    }
    let rest = room - span;
    nd * 8 <= rest && rest - nd * 8 >= 24
}

/// Reads the summary record at byte `rec_offset` of `data`: appends the
/// segments of its summaries to `segments`, in order, and returns the
/// number of the next summary record (0 when it is the last).
pub fn parse_summary_record(
    data: &[u8],
    rec_offset: usize,
    nd: usize,
    ni: usize,
    is_le: bool,
    segments: &mut Vec<BspSegment>,
) -> (next: usize)
    requires
        summary_layout_ok(nd, ni),
        record_in_bounds(data@, rec_offset as int, nd, ni, is_le),
    ensures
        next as int == record_next(data@, rec_offset as int, is_le),
        final(segments)@ == old(segments)@ + record_segments(data@, rec_offset as int, nd, ni, is_le),
{
    reveal(record_in_bounds);
    reveal(record_segments);
    let len = data.len();
    let summary_doubles = nd + (ni + 1) / 2;
    let summary_size = summary_doubles * 8;
    let next_rec = double_bits_round_to_usize(read_u64(data, rec_offset, is_le));
    let n_summaries = double_bits_round_to_usize(read_u64(data, rec_offset + 16, is_le));
    let ghost start = segments@;
    let mut i: usize = 0;
    let mut base: usize = rec_offset + 24;
    while i < n_summaries
        invariant
            summary_layout_ok(nd, ni),
            record_in_bounds(data@, rec_offset as int, nd, ni, is_le),
            summary_size == summary_bytes(nd, ni),
            len == data@.len(),
            n_summaries == record_count(data@, rec_offset as int, is_le),
            i <= n_summaries,
            i < n_summaries ==> base == summary_base(rec_offset as int, i as int, nd, ni),
            segments@ == start + record_segments(data@, rec_offset as int, nd, ni, is_le).take(
                i as int,
            ),
        decreases n_summaries - i,
    {
        proof {
            reveal(record_segments);
            lemma_summary_in_bounds(data@, rec_offset as int, nd, ni, is_le, i as int);
        }
        let start_sec = read_u64(data, base, is_le);
        let end_sec = read_u64(data, base + 8, is_le);
        let int_base = base + nd * 8;
        let target = read_i32(data, int_base, is_le);
        let center = read_i32(data, int_base + 4, is_le);
        let spk_type = read_i32(data, int_base + 12, is_le);
        let first_addr = read_i32(data, int_base + 16, is_le) as usize;
        let last_addr = read_i32(data, int_base + 20, is_le) as usize;
        segments.push(
            BspSegment {
                target,
                center,
                spk_type,
                start_sec_bits: start_sec,
                end_sec_bits: end_sec,
                start_idx: first_addr,
                end_idx: last_addr,
            },
        );
        proof {
            reveal(record_segments);
            assert(record_segments(data@, rec_offset as int, nd, ni, is_le).take(i + 1)
                =~= record_segments(data@, rec_offset as int, nd, ni, is_le).take(i as int).push(
                summary_at(data@, base as int, nd, is_le),
            ));
        }
        i = i + 1;
        if i < n_summaries {
            proof {
                lemma_summary_in_bounds(data@, rec_offset as int, nd, ni, is_le, i as int);
            }
            base = base + summary_size;
        }
    }
    proof {
        reveal(record_segments);
        assert(record_segments(data@, rec_offset as int, nd, ni, is_le).take(i as int)
            =~= record_segments(data@, rec_offset as int, nd, ni, is_le));
    }
    next_rec
}

} // verus!

verus! {

/// Byte offset of DAF record number `rec` (records are numbered from 1).
pub open spec fn record_offset(rec: int) -> int {
    (rec - 1) * RECORD_SIZE
}

/// Following the chain of summary records from record `rec` for at most
/// `fuel` records reaches the end of the chain (record number 0), and every
/// record on the way can be read within `data`.
pub open spec fn chain_in_bounds(
    data: Seq<u8>,
    rec: int,
    nd: usize,
    ni: usize,
    le: bool,
    fuel: nat,
) -> bool
    decreases fuel,
{
    if rec == 0 {
        true
    } else if fuel == 0 {
        false
    } else {
        &&& record_in_bounds(data, record_offset(rec), nd, ni, le)
        &&& chain_in_bounds(
            data,
            record_next(data, record_offset(rec), le),
            nd,
            ni,
            le,
            (fuel - 1) as nat,
        )
    }
}

/// The segments of the summary records on the chain from record `rec`, in
/// the order of the chain and of the summaries within each record.
pub open spec fn chain_segments(
    data: Seq<u8>,
    rec: int,
    nd: usize,
    ni: usize,
    le: bool,
    fuel: nat,
) -> Seq<BspSegment>
    decreases fuel,
{
    if rec == 0 || fuel == 0 {
        Seq::empty()
    } else {
        record_segments(data, record_offset(rec), nd, ni, le) + chain_segments(
            data,
            record_next(data, record_offset(rec), le),
            nd,
            ni,
            le,
            (fuel - 1) as nat,
        )
    }
}

/// A bound on the length of any chain of summary records that ends: such a
/// chain visits distinct records, and `data` holds at most this many.
pub open spec fn chain_fuel(data: Seq<u8>) -> nat {
    data.len() / RECORD_SIZE as nat + 1
}

/// Reading the summary records that start at record `first_sum_rec` neither
/// overflows nor leaves `data`, and the chain of records ends.
pub open spec fn summaries_loadable(
    data: Seq<u8>,
    nd: usize,
    ni: usize,
    first_sum_rec: usize,
    le: bool,
) -> bool {
    summary_layout_ok(nd, ni) && chain_in_bounds(data, first_sum_rec as int, nd, ni, le, chain_fuel(data))
}

/// The segments described by the chain of summary records that starts at
/// record `first_sum_rec`.
pub open spec fn summaries_of(
    data: Seq<u8>,
    nd: usize,
    ni: usize,
    first_sum_rec: usize,
    le: bool,
) -> Seq<BspSegment> {
    chain_segments(data, first_sum_rec as int, nd, ni, le, chain_fuel(data))
}

/// Whether the size of a summary can be computed without overflow.
pub fn summary_layout_fits(nd: usize, ni: usize) -> (r: bool)
    ensures
        r == summary_layout_ok(nd, ni),
{
    if ni == usize::MAX {
        return false;
    }
    let half = (ni + 1) / 2;
    if nd > usize::MAX - half {
        return false;
    }
    nd + half <= usize::MAX / 8
}

/// Whether the chain of summary records from record `first_sum_rec` can be
/// read from `data`.
pub fn summaries_fit(data: &[u8], nd: usize, ni: usize, first_sum_rec: usize, is_le: bool) -> (r:
    bool)
    ensures
        r == summaries_loadable(data@, nd, ni, first_sum_rec, is_le),
{
    if !summary_layout_fits(nd, ni) {
        return false;
    }
    let len = data.len();
    let mut fuel: usize = len / RECORD_SIZE + 1;
    let mut rec_num = first_sum_rec;
    while rec_num > 0
        invariant
            len == data@.len(),
            summary_layout_ok(nd, ni),
            chain_in_bounds(data@, first_sum_rec as int, nd, ni, is_le, chain_fuel(data@))
                == chain_in_bounds(data@, rec_num as int, nd, ni, is_le, fuel as nat),
        decreases fuel,
    {
        if fuel == 0 {
            return false;
        }
        if rec_num - 1 > (usize::MAX - 24) / RECORD_SIZE {
            proof {
                let x = rec_num - 1;
                assert(x * 1024 + 24 > usize::MAX) by (nonlinear_arith)
                    requires
                        x > (usize::MAX - 24) / 1024,
                ;
                if record_in_bounds(data@, record_offset(rec_num as int), nd, ni, is_le) {
                    lemma_record_header(data@, record_offset(rec_num as int), nd, ni, is_le);
                }
            }
            return false;
        }
        let rec_offset = (rec_num - 1) * RECORD_SIZE;
        if !summary_record_fits(data, rec_offset, nd, ni, is_le) {
            return false;
        }
        proof {
            lemma_record_header(data@, rec_offset as int, nd, ni, is_le);
        }
        rec_num = double_bits_round_to_usize(read_u64(data, rec_offset, is_le));
        fuel = fuel - 1;
    }
    true
}

/// Reads the chain of summary records that starts at record `first_sum_rec`
/// and returns the segments they describe.
pub fn parse_summaries(data: &[u8], nd: usize, ni: usize, first_sum_rec: usize, is_le: bool) -> (r:
    Vec<BspSegment>)
    requires
        summaries_loadable(data@, nd, ni, first_sum_rec, is_le),
    ensures
        r@ == summaries_of(data@, nd, ni, first_sum_rec, is_le),
{
    let mut segments: Vec<BspSegment> = Vec::new();
    let mut rec_num = first_sum_rec;
    let len = data.len();
    let ghost mut fuel: nat = chain_fuel(data@);
    while rec_num > 0
        invariant
            len == data@.len(),
            summary_layout_ok(nd, ni),
            chain_in_bounds(data@, rec_num as int, nd, ni, is_le, fuel),
            segments@ + chain_segments(data@, rec_num as int, nd, ni, is_le, fuel) == summaries_of(
                data@,
                nd,
                ni,
                first_sum_rec,
                is_le,
            ),
        decreases fuel,
    {
        proof {
            lemma_record_header(data@, record_offset(rec_num as int), nd, ni, is_le);
        }
        let rec_offset = (rec_num - 1) * RECORD_SIZE;
        let ghost before = segments@;
        let next_rec = parse_summary_record(data, rec_offset, nd, ni, is_le, &mut segments);
        proof {
            assert(before + chain_segments(data@, rec_num as int, nd, ni, is_le, fuel) =~= segments@
                + chain_segments(data@, next_rec as int, nd, ni, is_le, (fuel - 1) as nat));
            fuel = (fuel - 1) as nat;
        }
        rec_num = next_rec;
    }
    proof {
        assert(segments@ + chain_segments(data@, rec_num as int, nd, ni, is_le, fuel) =~= segments@);
    }
    segments
}

} // verus!
