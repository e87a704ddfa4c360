//! A BSP file held in memory.

use vstd::prelude::*;

use crate::daf::{
    file_record_accepted,
    file_record_error,
    file_is_le,
    file_name,
    file_nd,
    file_ni,
    file_first_summary,
    summaries_loadable,
    summaries_of,
    parse_file_record,
    summaries_fit,
    parse_summaries,
};
use crate::error::BspError;
use crate::record::{
    RecordData,
    RecordLayout,
    SegmentMeta,
    decode_record,
    decode_segment_meta,
    meta_offset,
    record_in_bounds,
    segment_layout_ok,
    spec_coefficient,
    spec_segment_meta,
};
use crate::bytes::spec_u64_at;
use crate::spk::{
    BspSegment,
    CoverTest,
    PlanView,
    PositionPlan,
    SegmentStep,
    SsbPath,
    first_segment,
    first_selected,
    locate_segment,
    path_fuel,
    plan_position,
    segment_selected,
    spec_locate_segment,
    spec_position_plan,
    spec_ssb_path,
    ssb_path,
};

verus! {

/// `BspFile::from_bytes` reads `data` without leaving it or overflowing:
/// either the file record is rejected, or the chain of summary records can
/// be read in full.
pub open spec fn bytes_loadable(data: Seq<u8>) -> bool {
    file_record_accepted(data) ==> summaries_loadable(
        data,
        file_nd(data),
        file_ni(data),
        file_first_summary(data),
        file_is_le(data),
    )
}

/// The segments of the BSP file `data`.
pub open spec fn file_segments(data: Seq<u8>) -> Seq<BspSegment> {
    summaries_of(data, file_nd(data), file_ni(data), file_first_summary(data), file_is_le(data))
}

/// A parsed BSP file whose bytes are held in memory.
pub struct BspFile {
    /// The internal file name (`LOCIFN`), trimmed.
    pub name: String,
    /// The segments, in the order of the summary records.
    pub segments: Vec<BspSegment>,
    /// The bytes of the file.
    pub data: Vec<u8>,
    /// The file stores its numbers little-endian.
    pub is_le: bool,
}

impl BspFile {
    /// Whether `from_bytes` can read `data` (otherwise reading it would
    /// leave the bytes, overflow, or follow the summary records forever).
    pub fn can_load(data: &[u8]) -> (r: bool)
        ensures
            r == bytes_loadable(data@),
    {
        match parse_file_record(data) {
            Err(_) => true,
            Ok((nd, ni, first_sum_rec, is_le, _name)) => summaries_fit(
                data,
                nd,
                ni,
                first_sum_rec,
                is_le,
            ),
        }
    }

    /// Parses a BSP file held in memory: its file record, then the segments
    /// of its summary records.
    pub fn from_bytes(data: Vec<u8>) -> (r: Result<BspFile, BspError>)
        requires
            bytes_loadable(data@),
        ensures
            !file_record_accepted(data@) ==> (r matches Err(BspError::InvalidFormat(m)) && m@
                == file_record_error(data@)),
            file_record_accepted(data@) ==> (r matches Ok(f) && {
                &&& f.name@ == file_name(data@)
                &&& f.segments@ == file_segments(data@)
                &&& f.data@ == data@
                &&& f.is_le == file_is_le(data@)
            }),
    {
        let (nd, ni, first_sum_rec, is_le, name) = match parse_file_record(data.as_slice()) {
            Err(e) => return Err(e),
            Ok(v) => v,
        };
        let segments = parse_summaries(data.as_slice(), nd, ni, first_sum_rec, is_le);
        Ok(BspFile { name, segments, data, is_le })
    }

    /// Index of the first segment that gives `target` from `center` at time
    /// `t` (seconds past J2000, IEEE-754 bits).
    pub fn find_segment(&self, target: i32, center: i32, t: u64) -> (r: Option<usize>)
        ensures
            first_selected(self.segments@, target, Some(center), t, CoverTest::Within) == (match r {
                Some(k) => Some(k as int),
                None => None::<int>,
            }),
            r matches Some(k) ==> k < self.segments@.len() && segment_selected(
                self.segments@[k as int],
                target,
                Some(center),
                t,
                CoverTest::Within,
            ),
    {
        first_segment(self.segments.as_slice(), target, Some(center), t, CoverTest::Within)
    }

    /// The segment that gives `target` from `center` at time `t`, as the
    /// position and velocity queries use it.
    pub fn locate_segment(&self, target: i32, center: i32, t: u64) -> (r: Result<
        SegmentStep,
        BspError,
    >)
        ensures
            r == spec_locate_segment(self.segments@, target, center, t),
            r matches Ok(step) ==> step.segment < self.segments@.len(),
    {
        locate_segment(self.segments.as_slice(), target, center, t)
    }

    /// The walk from `target` to the solar-system barycentre at time `t`.
    /// A segment not measured from the barycentre is passed over only when
    /// `t < start || t > end`, so a NaN time does not pass it over.
    pub fn ssb_path(&self, target: i32, t: u64) -> (r: SsbPath)
        ensures
            r@ == spec_ssb_path(
                self.segments@,
                target,
                t,
                CoverTest::NotOutside,
                path_fuel(self.segments@),
            ),
            forall|i: int|
                0 <= i < r.steps@.len() ==> #[trigger] r.steps@[i].segment < self.segments@.len(),
    {
        ssb_path(self.segments.as_slice(), target, t, CoverTest::NotOutside)
    }

    /// The plan for the position of `target` from `center` at time `t`, its
    /// walks passing over a segment not measured from the barycentre only
    /// when `t < start || t > end`.
    pub fn plan_position(&self, target: i32, center: i32, t: u64) -> (r: Result<
        PositionPlan,
        BspError,
    >)
        ensures
            match r {
                Ok(p) => spec_position_plan(self.segments@, target, center, t, CoverTest::NotOutside) == Ok::<
                    PlanView,
                    BspError,
                >(p@),
                Err(e) => spec_position_plan(self.segments@, target, center, t, CoverTest::NotOutside) == Err::<
                    PlanView,
                    BspError,
                >(e),
            },
    {
        plan_position(self.segments.as_slice(), target, center, t, CoverTest::NotOutside)
    }

    /// The four doubles that close the data of segment `k`.
    pub fn segment_meta(&self, k: usize) -> (r: SegmentMeta)
        requires
            k < self.segments@.len(),
            segment_layout_ok(self.segments@[k as int]),
            self.segments@[k as int].end_idx * 8 <= self.data@.len(),
        ensures
            r == spec_segment_meta(self.data@, meta_offset(self.segments@[k as int]), self.is_le),
    {
        let seg = &self.segments[k];
        let off = seg.end_idx * 8 - 32;
        decode_segment_meta(self.data.as_slice(), off, self.is_le)
    }

    /// The record at `layout`, with its first `sets` polynomial sets.
    pub fn read_record(&self, layout: RecordLayout, sets: usize) -> (r: RecordData)
        requires
            record_in_bounds(self.data@, layout.offset as int, layout.ncoeff as int, sets as int),
        ensures
            r.mid_bits as int == spec_u64_at(self.data@, layout.offset as int, self.is_le),
            r.radius_bits as int == spec_u64_at(self.data@, layout.offset + 8, self.is_le),
            r.coefficients@.len() == sets,
            forall|k: int|
                0 <= k < sets ==> (#[trigger] r.coefficients@[k])@.len() == layout.ncoeff
                    && forall|i: int|
                    0 <= i < layout.ncoeff ==> #[trigger] r.coefficients@[k]@[i] == spec_coefficient(
                        self.data@,
                        layout.offset as int,
                        layout.ncoeff as int,
                        k,
                        i,
                        self.is_le,
                    ),
    {
        decode_record(self.data.as_slice(), layout.offset, layout.ncoeff, sets, self.is_le)
    }
}

} // verus!
