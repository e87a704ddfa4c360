//! SPK segments: their metadata, the supported segment types, and lookup.

use vstd::prelude::*;

use crate::bytes::{double_le, double_bits_le};
use crate::error::BspError;
use crate::naif::SSB;

verus! {

/// Metadata of one SPK segment, as its DAF summary gives it.
#[derive(Debug, Clone, Copy, PartialEq, Eq)]
pub struct BspSegment {
    /// NAIF ID of the body whose position the segment gives.
    pub target: i32,
    /// NAIF ID of the body the position is measured from.
    pub center: i32,
    /// SPK segment type.
    pub spk_type: i32,
    /// Start of the covered interval, seconds past J2000 (IEEE-754 bits).
    pub start_sec_bits: u64,
    /// End of the covered interval, seconds past J2000 (IEEE-754 bits).
    pub end_sec_bits: u64,
    /// First address of the segment's data (1-based, in doubles).
    pub start_idx: usize,
    /// Last address of the segment's data (1-based, in doubles).
    pub end_idx: usize,
}

/// SPK type 2: Chebyshev polynomials for position.
pub const SPK_TYPE_2: i32 = 2;

/// SPK type 3: Chebyshev polynomials for position and velocity.
pub const SPK_TYPE_3: i32 = 3;

/// Number of Chebyshev polynomial sets stored per record for a segment type.
pub open spec fn spec_spk_components(spk_type: i32) -> Option<usize> {
    if spk_type == SPK_TYPE_2 {
        Some(3usize)
    } else if spk_type == SPK_TYPE_3 {
        Some(6usize)
    } else {
        None
    }
}

/// Number of polynomial sets per record: 3 for type 2 (position), 6 for
/// type 3 (position and velocity), `None` for any other type.
pub fn spk_components(spk_type: i32) -> (r: Option<usize>)
    ensures
        r == spec_spk_components(spk_type),
{
    match spk_type {
        SPK_TYPE_2 => Some(3),
        SPK_TYPE_3 => Some(6),
        _ => None,
    }
}

} // verus!

verus! {

/// The time `t` (seconds past J2000, IEEE-754 bits) lies in the segment's
/// interval: `start <= t && t <= end` as doubles compare.
pub open spec fn segment_covers(seg: BspSegment, t: u64) -> bool {
    double_le(seg.start_sec_bits, t) && double_le(t, seg.end_sec_bits)
}

/// How a lookup tests that a segment covers a time.
#[derive(Debug, Clone, Copy, PartialEq, Eq)]
pub enum CoverTest {
    /// `start <= t && t <= end`: a NaN time is covered by no segment.
    Within,
    /// `!(t < start || t > end)`: a NaN time is covered by every segment.
    NotOutside,
}

/// `a < b` on two doubles given by their bit patterns: false when either
/// is a NaN.
pub open spec fn double_lt(a: u64, b: u64) -> bool {
    double_le(a, b) && !double_le(b, a)
}

/// The segment covers time `t` by the given test.
pub open spec fn segment_covers_by(seg: BspSegment, t: u64, cover: CoverTest) -> bool {
    match cover {
        CoverTest::Within => segment_covers(seg, t),
        CoverTest::NotOutside => !double_lt(t, seg.start_sec_bits) && !double_lt(
            seg.end_sec_bits,
            t,
        ),
    }
}

/// The segment gives `target` at time `t` (by the `cover` test), measured
/// from `center` when a center is named and from any center otherwise.
pub open spec fn segment_selected(
    seg: BspSegment,
    target: i32,
    center: Option<i32>,
    t: u64,
    cover: CoverTest,
) -> bool {
    &&& seg.target == target
    &&& (center matches Some(c) ==> seg.center == c)
    &&& segment_covers_by(seg, t, cover)
}

/// Index of the first segment at or after `i` that is selected.
pub open spec fn first_selected_from(
    segs: Seq<BspSegment>,
    target: i32,
    center: Option<i32>,
    t: u64,
    cover: CoverTest,
    i: int,
) -> Option<int>
    decreases segs.len() - i,
{
    if i < 0 || i >= segs.len() {
        None
    } else if segment_selected(segs[i], target, center, t, cover) {
        Some(i)
    } else {
        first_selected_from(segs, target, center, t, cover, i + 1)
    }
}

/// Index of the first selected segment.
pub open spec fn first_selected(
    segs: Seq<BspSegment>,
    target: i32,
    center: Option<i32>,
    t: u64,
    cover: CoverTest,
) -> Option<int> {
    first_selected_from(segs, target, center, t, cover, 0)
}

/// What `first_selected_from` finds: the first selected segment at or
/// after `i`, or none when no segment from `i` on is selected.
pub proof fn lemma_first_selected_from(
    segs: Seq<BspSegment>,
    target: i32,
    center: Option<i32>,
    t: u64,
    cover: CoverTest,
    i: int,
)
    requires
        0 <= i <= segs.len(),
    ensures
        first_selected_from(segs, target, center, t, cover, i) matches Some(k) ==> i <= k < segs.len()
            && segment_selected(segs[k], target, center, t, cover) && forall|j: int|
            i <= j < k ==> !segment_selected(#[trigger] segs[j], target, center, t, cover),
        first_selected_from(segs, target, center, t, cover, i) is None ==> forall|j: int|
            i <= j < segs.len() ==> !segment_selected(#[trigger] segs[j], target, center, t, cover),
    decreases segs.len() - i,
{
    if i < segs.len() {
        lemma_first_selected_from(segs, target, center, t, cover, i + 1);
    }
}

/// Index of the first segment that gives `target` at time `t` (seconds
/// past J2000, IEEE-754 bits), from `center` if one is named.
pub fn first_segment(
    segments: &[BspSegment],
    target: i32,
    center: Option<i32>,
    t: u64,
    cover: CoverTest,
) -> (r:
    Option<usize>)
    ensures
        first_selected(segments@, target, center, t, cover) == (match r {
            Some(k) => Some(k as int),
            None => None::<int>,
        }),
        r matches Some(k) ==> k < segments@.len() && segment_selected(
            segments@[k as int],
            target,
            center,
            t,
            cover,
        ) && forall|j: int|
            0 <= j < k ==> !segment_selected(#[trigger] segments@[j], target, center, t, cover),
        r is None ==> forall|j: int|
            0 <= j < segments@.len() ==> !segment_selected(
                #[trigger] segments@[j],
                target,
                center,
                t,
                cover,
            ),
{
    proof {
        lemma_first_selected_from(segments@, target, center, t, cover, 0);
    }
    let n = segments.len();
    let mut i: usize = 0;
    while i < n
        invariant
            n == segments@.len(),
            i <= n,
            first_selected(segments@, target, center, t, cover) == first_selected_from(
                segments@,
                target,
                center,
                t,
                cover,
                i as int,
            ),
        decreases n - i,
    {
        let s = &segments[i];
        let center_ok = match center {
            Some(c) => s.center == c,
            None => true,
        };
        let covered = match cover {
            CoverTest::Within => double_bits_le(s.start_sec_bits, t) && double_bits_le(
                t,
                s.end_sec_bits,
            ),
            CoverTest::NotOutside => {
                let before = double_bits_le(t, s.start_sec_bits) && !double_bits_le(
                    s.start_sec_bits,
                    t,
                );
                let after = double_bits_le(s.end_sec_bits, t) && !double_bits_le(
                    t,
                    s.end_sec_bits,
                );
                !(before || after)
            },
        };
        if s.target == target && center_ok && covered {
            proof {
                lemma_first_selected_from(segments@, target, center, t, cover, 0);
            }
            return Some(i);
        }
        i = i + 1;
    }
    None
}

} // verus!

verus! {

/// A segment to evaluate, with the number of polynomial sets per record of
/// its type.
#[derive(Debug, Clone, Copy, PartialEq, Eq)]
pub struct SegmentStep {
    /// Index of the segment in the file's segment list.
    pub segment: usize,
    /// Polynomial sets per record: 3 (type 2) or 6 (type 3).
    pub components: usize,
}

/// The segment that gives `target` from `center` at time `t`, as the
/// position and velocity queries select it: the first covering segment
/// (`TargetNotFound(target)` when there is none), of a supported type
/// (`UnsupportedType` otherwise).
pub open spec fn spec_locate_segment(segs: Seq<BspSegment>, target: i32, center: i32, t: u64) -> Result<
    SegmentStep,
    BspError,
> {
    match first_selected(segs, target, Some(center), t, CoverTest::Within) {
        None => Err(BspError::TargetNotFound(target)),
        Some(k) => match spec_spk_components(segs[k].spk_type) {
            None => Err(BspError::UnsupportedType(segs[k].spk_type)),
            Some(c) => Ok(SegmentStep { segment: k as usize, components: c }),
        },
    }
}

/// Selects the segment that gives `target` from `center` at time `t`
/// (seconds past J2000, IEEE-754 bits).
pub fn locate_segment(segments: &[BspSegment], target: i32, center: i32, t: u64) -> (r: Result<
    SegmentStep,
    BspError,
>)
    ensures
        r == spec_locate_segment(segments@, target, center, t),
        r matches Ok(step) ==> step.segment < segments@.len(),
{
    match first_segment(segments, target, Some(center), t, CoverTest::Within) {
        None => Err(BspError::TargetNotFound(target)),
        Some(k) => match spk_components(segments[k].spk_type) {
            None => Err(BspError::UnsupportedType(segments[k].spk_type)),
            Some(c) => Ok(SegmentStep { segment: k, components: c }),
        },
    }
}

/// How the walk from a body towards the solar-system barycentre ends.
#[derive(Debug, Clone, Copy, PartialEq, Eq)]
pub enum PathEnd {
    /// The last step is a segment measured from the barycentre.
    Reached,
    /// A selected segment has this unsupported SPK type.
    UnsupportedType(i32),
    /// No segment gives this body at the requested time.
    TargetNotFound(i32),
    /// The chain of centers returns to a body already on the walk; the walk
    /// would not end.
    CenterLoop,
}

/// The walk from `target` towards the barycentre at time `t`: the segments
/// whose positions, summed, give the position of `target` from the
/// barycentre, and how the walk ends. The walk from the barycentre itself
/// has no step: its position is zero. At each body the first segment
/// measured from the barycentre that covers `t` (`start <= t <= end`) is
/// taken if there is one; otherwise the first segment of the body, whatever
/// its center, that covers `t` by the `fallback` test, and the walk goes on
/// from that center. `fuel` bounds the number of bodies visited.
pub open spec fn spec_ssb_path(
    segs: Seq<BspSegment>,
    target: i32,
    t: u64,
    fallback: CoverTest,
    fuel: nat,
) -> (Seq<
    SegmentStep,
>, PathEnd)
    decreases fuel,
{
    if fuel == 0 {
        (Seq::empty(), PathEnd::CenterLoop)
    } else if target == SSB {
        (Seq::empty(), PathEnd::Reached)
    } else {
        match first_selected(segs, target, Some(SSB), t, CoverTest::Within) {
            Some(k) => match spec_spk_components(segs[k].spk_type) {
                None => (Seq::empty(), PathEnd::UnsupportedType(segs[k].spk_type)),
                Some(c) => (seq![SegmentStep { segment: k as usize, components: c }], PathEnd::Reached),
            },
            None => match first_selected(segs, target, None, t, fallback) {
                None => (Seq::empty(), PathEnd::TargetNotFound(target)),
                Some(k) => match spec_spk_components(segs[k].spk_type) {
                    None => (Seq::empty(), PathEnd::UnsupportedType(segs[k].spk_type)),
                    Some(c) => {
                        let step = SegmentStep { segment: k as usize, components: c };
                        if segs[k].center == SSB {
                            (seq![step], PathEnd::Reached)
                        } else {
                            let rest = spec_ssb_path(segs, segs[k].center, t, fallback, (fuel - 1) as nat);
                            (seq![step] + rest.0, rest.1)
                        }
                    },
                },
            },
        }
    }
}

/// How a walk that ended as `end` settles the position query: nothing to
/// report when it reached the barycentre, else the error it ended with.
pub open spec fn spec_walk_outcome(end: PathEnd) -> Result<(), BspError> {
    match end {
        PathEnd::UnsupportedType(t) => Err(BspError::UnsupportedType(t)),
        PathEnd::TargetNotFound(b) => Err(BspError::TargetNotFound(b)),
        _ => Ok(()),
    }
}

/// The outcome of a walk that ended as `end`. A walk whose centers loop
/// never ends, so it has none.
pub fn walk_outcome(end: PathEnd) -> (r: Result<(), BspError>)
    requires
        end != PathEnd::CenterLoop,
    ensures
        r == spec_walk_outcome(end),
{
    match end {
        PathEnd::UnsupportedType(t) => Err(BspError::UnsupportedType(t)),
        PathEnd::TargetNotFound(b) => Err(BspError::TargetNotFound(b)),
        _ => Ok(()),
    }
}

/// A walk of any length ends within this many bodies, or never: each body
/// but the last is left through a segment not measured from the barycentre,
/// and such segments of distinct bodies are distinct.
pub open spec fn path_fuel(segs: Seq<BspSegment>) -> nat {
    segs.len() + 1
}

/// The segments to evaluate, in order, for the position of a body from the
/// barycentre, and how the walk ended.
#[derive(Debug)]
pub struct SsbPath {
    pub steps: Vec<SegmentStep>,
    pub end: PathEnd,
}

/// Plans the position of `target` from the solar-system barycentre at time
/// `t` (seconds past J2000, IEEE-754 bits), with `fallback` as the cover
/// test of the segments not measured from the barycentre. The position is the sum of the
/// positions given by `steps` (the last step first). Where `end` is not
/// `Reached`, the steps are evaluated (their errors come first) and then the
/// walk fails as `end` says.
pub fn ssb_path(segments: &[BspSegment], target: i32, t: u64, fallback: CoverTest) -> (r: SsbPath)
    ensures
        (r.steps@, r.end) == spec_ssb_path(segments@, target, t, fallback, path_fuel(segments@)),
        forall|i: int| 0 <= i < r.steps@.len() ==> #[trigger] r.steps@[i].segment < segments@.len(),
{
    let mut steps: Vec<SegmentStep> = Vec::new();
    if target == SSB {
        return SsbPath { steps, end: PathEnd::Reached };
    }
    let mut body = target;
    let mut fuel: usize = segments.len();
    let ghost total = spec_ssb_path(segments@, target, t, fallback, path_fuel(segments@));
    loop
        invariant
            body != SSB,
            fuel < segments@.len() + 1,
            total == spec_ssb_path(segments@, target, t, fallback, path_fuel(segments@)),
            total == (
                steps@ + spec_ssb_path(segments@, body, t, fallback, fuel as nat + 1).0,
                spec_ssb_path(segments@, body, t, fallback, fuel as nat + 1).1,
            ),
            forall|i: int| 0 <= i < steps@.len() ==> #[trigger] steps@[i].segment < segments@.len(),
        decreases fuel,
    {
        match first_segment(segments, body, Some(SSB), t, CoverTest::Within) {
            Some(k) => {
                match spk_components(segments[k].spk_type) {
                    None => {
                        proof {
                            assert(steps@ + Seq::<SegmentStep>::empty() =~= steps@);
                        }
                        return SsbPath { steps, end: PathEnd::UnsupportedType(segments[k].spk_type) };
                    },
                    Some(c) => {
                        steps.push(SegmentStep { segment: k, components: c });
                        return SsbPath { steps, end: PathEnd::Reached };
                    },
                }
            },
            None => {},
        }
        match first_segment(segments, body, None, t, fallback) {
            None => {
                proof {
                    assert(steps@ + Seq::<SegmentStep>::empty() =~= steps@);
                }
                return SsbPath { steps, end: PathEnd::TargetNotFound(body) };
            },
            Some(k) => {
                match spk_components(segments[k].spk_type) {
                    None => {
                        proof {
                            assert(steps@ + Seq::<SegmentStep>::empty() =~= steps@);
                        }
                        return SsbPath { steps, end: PathEnd::UnsupportedType(segments[k].spk_type) };
                    },
                    Some(c) => {
                        let ghost before = steps@;
                        steps.push(SegmentStep { segment: k, components: c });
                        if segments[k].center == SSB {
                            return SsbPath { steps, end: PathEnd::Reached };
                        }
                        if fuel == 0 {
                            proof {
                                let rest = spec_ssb_path(segments@, segments@[k as int].center, t, fallback, 0);
                                assert(rest == (Seq::<SegmentStep>::empty(), PathEnd::CenterLoop));
                                assert(before.push(SegmentStep { segment: k, components: c })
                                    + Seq::<SegmentStep>::empty() =~= steps@);
                            }
                            return SsbPath { steps, end: PathEnd::CenterLoop };
                        }
                        proof {
                            let rest = spec_ssb_path(segments@, segments@[k as int].center, t, fallback, fuel as nat);
                            assert(before + (seq![SegmentStep { segment: k, components: c }]
                                + rest.0) =~= steps@ + rest.0);
                        }
                        body = segments[k].center;
                        fuel = fuel - 1;
                    },
                }
            },
        }
    }
}

} // verus!

verus! {

impl View for SsbPath {
    type V = (Seq<SegmentStep>, PathEnd);

    open spec fn view(&self) -> (Seq<SegmentStep>, PathEnd) {
        (self.steps@, self.end)
    }
}

/// What the position of a body from a center is computed from.
#[derive(Debug)]
pub enum PositionPlan {
    /// The body is the center: the zero vector.
    Same,
    /// One segment gives the body from the center directly.
    Direct(SegmentStep),
    /// The position of the body from the barycentre minus that of the
    /// center. `center` is `None` when the center is the barycentre (whose
    /// position is zero) or when the walk from the body did not reach the
    /// barycentre (the walk's failure is then the result).
    Chained { target: SsbPath, center: Option<SsbPath> },
}

/// The mathematical content of a `PositionPlan`.
pub enum PlanView {
    Same,
    Direct(SegmentStep),
    Chained((Seq<SegmentStep>, PathEnd), Option<(Seq<SegmentStep>, PathEnd)>),
}

impl View for PositionPlan {
    type V = PlanView;

    open spec fn view(&self) -> PlanView {
        match self {
            PositionPlan::Same => PlanView::Same,
            PositionPlan::Direct(step) => PlanView::Direct(*step),
            PositionPlan::Chained { target, center } => PlanView::Chained(
                target@,
                match center {
                    Some(p) => Some(p@),
                    None => None,
                },
            ),
        }
    }
}

/// The plan for the position of `target` from `center` at time `t`: zero
/// when they are the same body; the segment that gives `target` from
/// `center` directly when one covers `t` (failing with `UnsupportedType` if
/// its type is not supported); otherwise the walks of both bodies to the
/// barycentre, the center's only when it is not the barycentre and the
/// target's walk reached it.
pub open spec fn spec_position_plan(
    segs: Seq<BspSegment>,
    target: i32,
    center: i32,
    t: u64,
    fallback: CoverTest,
) -> Result<
    PlanView,
    BspError,
> {
    if target == center {
        Ok(PlanView::Same)
    } else if first_selected(segs, target, Some(center), t, CoverTest::Within) is Some {
        match spec_locate_segment(segs, target, center, t) {
            Ok(step) => Ok(PlanView::Direct(step)),
            Err(e) => Err(e),
        }
    } else {
        let tp = spec_ssb_path(segs, target, t, fallback, path_fuel(segs));
        Ok(
            PlanView::Chained(
                tp,
                if tp.1 == PathEnd::Reached && center != SSB {
                    Some(spec_ssb_path(segs, center, t, fallback, path_fuel(segs)))
                } else {
                    None
                },
            ),
        )
    }
}

/// Plans the position of `target` from `center` at time `t` (seconds past
/// J2000, IEEE-754 bits), with `fallback` as the cover test of the walks.
pub fn plan_position(
    segments: &[BspSegment],
    target: i32,
    center: i32,
    t: u64,
    fallback: CoverTest,
) -> (r: Result<
    PositionPlan,
    BspError,
>)
    ensures
        match r {
            Ok(p) => spec_position_plan(segments@, target, center, t, fallback) == Ok::<PlanView, BspError>(p@),
            Err(e) => spec_position_plan(segments@, target, center, t, fallback) == Err::<PlanView, BspError>(e),
        },
{
    if target == center {
        return Ok(PositionPlan::Same);
    }
    if first_segment(segments, target, Some(center), t, CoverTest::Within).is_some() {
        return match locate_segment(segments, target, center, t) {
            Ok(step) => Ok(PositionPlan::Direct(step)),
            Err(e) => Err(e),
        };
    }
    let target_path = ssb_path(segments, target, t, fallback);
    let center_path = if matches!(target_path.end, PathEnd::Reached) && center != SSB {
        Some(ssb_path(segments, center, t, fallback))
    } else {
        None
    };
    Ok(PositionPlan::Chained { target: target_path, center: center_path })
}

} // verus!
