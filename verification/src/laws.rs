//! Properties of segment selection, of the position plans, and of the two
//! byte orders of a file.

use vstd::prelude::*;

use crate::bsp::{bytes_loadable, file_segments};
use crate::bytes::{
    DOUBLE_SIGN,
    double_exponent,
    double_is_nan,
    double_le,
    double_round_to_usize,
    double_fraction,
    double_shift,
    double_significand,
    double_whole_value,
    law_whole_doubles_round_to_their_value,
    lemma_round_to_usize_nonnegative,
    spec_i32_at,
    spec_u32_at,
    spec_u64_at,
};
use vstd::arithmetic::power2::pow2;
use vstd::arithmetic::div_mod::lemma_fundamental_div_mod_converse;
use crate::daf::{
    RECORD_SIZE,
    chain_fuel,
    chain_in_bounds,
    chain_segments,
    file_first_summary,
    file_is_le,
    file_name,
    file_nd,
    file_ni,
    file_locidw,
    file_record_accepted,
    file_record_error,
    record_count,
    record_in_bounds,
    record_next,
    record_offset,
    record_segments,
    summary_at,
    summary_base,
    summary_layout_ok,
};
use crate::error::BspError;
use crate::record::{clamp_ok, clamp_record_index, data_start, meta_offset, spec_coefficient, spec_segment_meta};
use crate::text::{is_white_space, trim, trim_end, trim_start, utf8_or_empty};
use vstd::utf8::{encode_utf8, encode_utf8_decode_utf8, encode_utf8_valid_utf8};
use crate::naif::SSB;
use crate::spk::{
    BspSegment,
    CoverTest,
    segment_covers_by,
    PathEnd,
    PlanView,
    SegmentStep,
    first_selected,
    lemma_first_selected_from,
    segment_covers,
    segment_selected,
    spec_locate_segment,
    spec_position_plan,
    spec_spk_components,
    spec_ssb_path,
    path_fuel,
};

verus! {

proof fn lemma_first_selected(
    segs: Seq<BspSegment>,
    target: i32,
    center: Option<i32>,
    t: u64,
    cover: CoverTest,
)
    ensures
        first_selected(segs, target, center, t, cover) matches Some(k) ==> 0 <= k < segs.len()
            && segment_selected(segs[k], target, center, t, cover) && forall|j: int|
            0 <= j < k ==> !segment_selected(#[trigger] segs[j], target, center, t, cover),
        first_selected(segs, target, center, t, cover) is None ==> forall|j: int|
            0 <= j < segs.len() ==> !segment_selected(#[trigger] segs[j], target, center, t, cover),
{
    lemma_first_selected_from(segs, target, center, t, cover, 0);
}

/// The position of a body from itself is the zero vector, whatever the file
/// holds.
pub proof fn law_same_body_is_zero(segs: Seq<BspSegment>, body: i32, t: u64, fallback: CoverTest)
    ensures
        spec_position_plan(segs, body, body, t, fallback) == Ok::<PlanView, BspError>(PlanView::Same),
{
}

/// When a segment gives `target` from `center` directly, the position is
/// computed from exactly the segment that the direct position query
/// selects, and fails exactly as that query fails.
pub proof fn law_direct_position_agrees_with_located_segment(
    segs: Seq<BspSegment>,
    target: i32,
    center: i32,
    t: u64,
    fallback: CoverTest,
)
    requires
        target != center,
        first_selected(segs, target, Some(center), t, CoverTest::Within) is Some,
    ensures
        spec_position_plan(segs, target, center, t, fallback) == (match spec_locate_segment(
            segs,
            target,
            center,
            t,
        ) {
            Ok(step) => Ok::<PlanView, BspError>(PlanView::Direct(step)),
            Err(e) => Err::<PlanView, BspError>(e),
        }),
{
}

/// A selected segment gives the requested body from the requested center,
/// its interval contains the requested time, and its type is supported.
pub proof fn law_located_segment_covers_time(segs: Seq<BspSegment>, target: i32, center: i32, t: u64)
    requires
        segs.len() <= usize::MAX,
    ensures
        spec_locate_segment(segs, target, center, t) matches Ok(step) ==> {
            &&& 0 <= step.segment < segs.len()
            &&& segs[step.segment as int].target == target
            &&& segs[step.segment as int].center == center
            &&& segment_covers(segs[step.segment as int], t)
            &&& spec_spk_components(segs[step.segment as int].spk_type) == Some(step.components)
        },
{
    lemma_first_selected(segs, target, Some(center), t, CoverTest::Within);
}

/// A time that no segment of `target` from `center` covers is reported as
/// `TargetNotFound(target)`: the reader never evaluates a segment outside
/// its interval.
pub proof fn law_uncovered_time_is_not_found(segs: Seq<BspSegment>, target: i32, center: i32, t: u64)
    requires
        forall|j: int|
            0 <= j < segs.len() ==> !segment_selected(#[trigger] segs[j], target, Some(center), t, CoverTest::Within),
    ensures
        spec_locate_segment(segs, target, center, t) == Err::<SegmentStep, BspError>(
            BspError::TargetNotFound(target),
        ),
{
    lemma_first_selected(segs, target, Some(center), t, CoverTest::Within);
}

/// The barycentre seen from a body: where no segment gives the barycentre
/// from `center` directly, its position is the zero position of the
/// barycentre's own walk, which has no step, minus the position of `center`
/// from the barycentre, planned by the walk from `center`.
pub proof fn law_barycentre_from_center_is_negated_walk(
    segs: Seq<BspSegment>,
    center: i32,
    t: u64,
    fallback: CoverTest,
)
    requires
        center != SSB,
        first_selected(segs, SSB, Some(center), t, CoverTest::Within) is None,
    ensures
        spec_ssb_path(segs, SSB, t, fallback, path_fuel(segs)) == (Seq::<SegmentStep>::empty(), PathEnd::Reached),
        spec_position_plan(segs, SSB, center, t, fallback) == Ok::<PlanView, BspError>(
            PlanView::Chained(
                (Seq::<SegmentStep>::empty(), PathEnd::Reached),
                Some(spec_ssb_path(segs, center, t, fallback, path_fuel(segs))),
            ),
        ),
{
}

/// `steps` is a chain of segments from `target` towards the barycentre at
/// time `t`: each step names a segment of a supported type that covers `t`
/// by the `fallback` test, the first gives `target`, and each next one gives
/// the center of the one before.
pub open spec fn is_segment_chain(
    segs: Seq<BspSegment>,
    target: i32,
    t: u64,
    fallback: CoverTest,
    steps: Seq<SegmentStep>,
) -> bool {
    &&& forall|i: int|
        0 <= i < steps.len() ==> {
            &&& 0 <= (#[trigger] steps[i]).segment < segs.len()
            &&& segment_covers_by(segs[steps[i].segment as int], t, fallback)
            &&& spec_spk_components(segs[steps[i].segment as int].spk_type) == Some(
                steps[i].components,
            )
        }
    &&& steps.len() > 0 ==> segs[steps[0].segment as int].target == target
    &&& forall|i: int|
        0 <= i < steps.len() - 1 ==> segs[steps[i + 1].segment as int].target == segs[(
        #[trigger] steps[i]).segment as int].center
}

/// The walk from a body towards the barycentre follows the chain of
/// centers: its steps form a segment chain from the body, and when the walk
/// reaches the barycentre its last segment is measured from the barycentre
/// (the walk from the barycentre itself has no step).
/// So the sum of the steps' positions is the body's position from the
/// barycentre.
pub proof fn law_ssb_path_is_chain(
    segs: Seq<BspSegment>,
    target: i32,
    t: u64,
    fallback: CoverTest,
    fuel: nat,
)
    requires
        segs.len() <= usize::MAX,
    ensures
        is_segment_chain(segs, target, t, fallback, spec_ssb_path(segs, target, t, fallback, fuel).0),
        spec_ssb_path(segs, target, t, fallback, fuel).1 == PathEnd::Reached ==> {
            let steps = spec_ssb_path(segs, target, t, fallback, fuel).0;
            if steps.len() == 0 {
                target == SSB
            } else {
                segs[steps.last().segment as int].center == SSB
            }
        },
    decreases fuel,
{
    if fuel > 0 {
        lemma_first_selected(segs, target, Some(SSB), t, CoverTest::Within);
        lemma_first_selected(segs, target, None, t, fallback);
        if first_selected(segs, target, Some(SSB), t, CoverTest::Within) is None {
            if let Some(k) = first_selected(segs, target, None, t, fallback) {
                if spec_spk_components(segs[k].spk_type) is Some && segs[k].center != SSB {
                    let c = spec_spk_components(segs[k].spk_type)->0;
                    let step = SegmentStep { segment: k as usize, components: c };
                    let rest = spec_ssb_path(segs, segs[k].center, t, fallback, (fuel - 1) as nat);
                    law_ssb_path_is_chain(segs, segs[k].center, t, fallback, (fuel - 1) as nat);
                    let steps = seq![step] + rest.0;
                    assert(steps[0] == step);
                    assert forall|i: int| 0 <= i < steps.len() implies {
                        &&& 0 <= (#[trigger] steps[i]).segment < segs.len()
                        &&& segment_covers_by(segs[steps[i].segment as int], t, fallback)
                        &&& spec_spk_components(segs[steps[i].segment as int].spk_type) == Some(
                            steps[i].components,
                        )
                    } by {
                        if i > 0 {
                            assert(steps[i] == rest.0[i - 1]);
                        }
                    }
                    assert forall|i: int| 0 <= i < steps.len() - 1 implies segs[steps[i
                        + 1].segment as int].target == segs[(#[trigger] steps[i]).segment as int].center by {
                        assert(steps[i + 1] == rest.0[i]);
                        if i > 0 {
                            assert(steps[i] == rest.0[i - 1]);
                        }
                    }
                    if rest.1 == PathEnd::Reached {
                        assert(steps.last() == rest.0.last());
                    }
                }
            }
        }
    }
}

/// The body the walk towards the barycentre goes on to from `body`, if it
/// goes on: `body` is not the barycentre, no covering segment of `body` is
/// measured from the barycentre,
/// and the first covering segment of `body` is of a supported type and is
/// measured from another body than the barycentre.
pub open spec fn walk_next(segs: Seq<BspSegment>, body: i32, t: u64, fallback: CoverTest) -> Option<i32> {
    if body == SSB || first_selected(segs, body, Some(SSB), t, CoverTest::Within) is Some {
        None
    } else {
        match first_selected(segs, body, None, t, fallback) {
            None => None,
            Some(k) => if spec_spk_components(segs[k].spk_type) is Some && segs[k].center != SSB {
                Some(segs[k].center)
            } else {
                None
            },
        }
    }
}

/// The body the walk from `body` stands at after `i` steps, if it gets
/// that far.
pub open spec fn walk_body(
    segs: Seq<BspSegment>,
    body: i32,
    t: u64,
    fallback: CoverTest,
    i: nat,
) -> Option<i32>
    decreases i,
{
    if i == 0 {
        Some(body)
    } else {
        match walk_next(segs, body, t, fallback) {
            Some(c) => walk_body(segs, c, t, fallback, (i - 1) as nat),
            None => None,
        }
    }
}

proof fn lemma_center_loop_iff_walk_goes_on(segs: Seq<BspSegment>, body: i32, t: u64, fallback: CoverTest, fuel: nat)
    ensures
        (spec_ssb_path(segs, body, t, fallback, fuel).1 == PathEnd::CenterLoop) == (walk_body(
            segs,
            body,
            t,
            fallback,
            fuel,
        ) is Some),
    decreases fuel,
{
    if fuel > 0 {
        if let Some(c) = walk_next(segs, body, t, fallback) {
            lemma_center_loop_iff_walk_goes_on(segs, c, t, fallback, (fuel - 1) as nat);
        }
    }
}

proof fn lemma_finished_walk_is_stable(segs: Seq<BspSegment>, body: i32, t: u64, fallback: CoverTest, fuel: nat, more: nat)
    requires
        spec_ssb_path(segs, body, t, fallback, fuel).1 != PathEnd::CenterLoop,
        fuel <= more,
    ensures
        spec_ssb_path(segs, body, t, fallback, more) == spec_ssb_path(segs, body, t, fallback, fuel),
    decreases fuel,
{
    if let Some(c) = walk_next(segs, body, t, fallback) {
        lemma_finished_walk_is_stable(segs, c, t, fallback, (fuel - 1) as nat, (more - 1) as nat);
    }
}

proof fn lemma_walk_compose(segs: Seq<BspSegment>, body: i32, t: u64, fallback: CoverTest, i: nat, j: nat)
    ensures
        walk_body(segs, body, t, fallback, i + j) == (match walk_body(segs, body, t, fallback, i) {
            Some(b) => walk_body(segs, b, t, fallback, j),
            None => None,
        }),
    decreases i,
{
    if i > 0 {
        if let Some(c) = walk_next(segs, body, t, fallback) {
            lemma_walk_compose(segs, c, t, fallback, (i - 1) as nat, j);
            assert((i - 1) as nat + j == (i + j - 1) as nat);
        }
    }
}

proof fn lemma_walk_prefix(segs: Seq<BspSegment>, body: i32, t: u64, fallback: CoverTest, i: nat, n: nat)
    requires
        i <= n,
        walk_body(segs, body, t, fallback, n) is Some,
    ensures
        walk_body(segs, body, t, fallback, i) is Some,
{
    lemma_walk_compose(segs, body, t, fallback, i, (n - i) as nat);
}

/// The segment by which the walk leaves `body` when it goes on.
spec fn leaving_segment(segs: Seq<BspSegment>, body: i32, t: u64, fallback: CoverTest) -> int {
    first_selected(segs, body, None, t, fallback)->0
}

proof fn lemma_leaving_segment(segs: Seq<BspSegment>, body: i32, t: u64, fallback: CoverTest)
    requires
        walk_next(segs, body, t, fallback) is Some,
    ensures
        0 <= leaving_segment(segs, body, t, fallback) < segs.len(),
        segs[leaving_segment(segs, body, t, fallback)].target == body,
{
    lemma_first_selected(segs, body, None, t, fallback);
}

/// Among the first `segs.len() + 1` bodies of a walk that goes on that long,
/// two are the same.
proof fn lemma_walk_repeats(segs: Seq<BspSegment>, body: i32, t: u64, fallback: CoverTest) -> (r: (nat, nat))
    requires
        walk_body(segs, body, t, fallback, segs.len() + 1) is Some,
    ensures
        r.0 < r.1 <= segs.len(),
        walk_body(segs, body, t, fallback, r.1) is Some,
        walk_body(segs, body, t, fallback, r.0) == walk_body(segs, body, t, fallback, r.1),
{
    let n = segs.len();
    let bodies = Seq::new(n + 1, |i: int| walk_body(segs, body, t, fallback, i as nat)->0);
    assert forall|i: int| 0 <= i <= n implies walk_body(segs, body, t, fallback, i as nat) is Some
        && walk_next(segs, bodies[i], t, fallback) is Some by {
        lemma_walk_prefix(segs, body, t, fallback, i as nat, n + 1);
        lemma_walk_prefix(segs, body, t, fallback, (i + 1) as nat, n + 1);
        lemma_walk_compose(segs, body, t, fallback, i as nat, 1);
    }
    let leaving = Seq::new(n + 1, |i: int| leaving_segment(segs, bodies[i], t, fallback));
    assert forall|i: int| 0 <= i <= n implies 0 <= #[trigger] leaving[i] < n && segs[leaving[i]].target
        == bodies[i] by {
        lemma_leaving_segment(segs, bodies[i], t, fallback);
    }
    if leaving.no_duplicates() {
        leaving.unique_seq_to_set();
        vstd::set_lib::lemma_int_range(0, n as int);
        assert(leaving.to_set().subset_of(vstd::set_lib::set_int_range(0, n as int)));
        vstd::set_lib::lemma_len_subset(leaving.to_set(), vstd::set_lib::set_int_range(0, n as int));
        assert(false);
    }
    let (i, j) = choose|i: int, j: int|
        0 <= i < leaving.len() && 0 <= j < leaving.len() && i != j && leaving[i] == leaving[j];
    assert(bodies[i] == bodies[j]);
    if i < j {
        (i as nat, j as nat)
    } else {
        (j as nat, i as nat)
    }
}

proof fn lemma_repeating_walk_goes_on(segs: Seq<BspSegment>, body: i32, t: u64, fallback: CoverTest, i: nat, j: nat, m: nat)
    requires
        i < j,
        walk_body(segs, body, t, fallback, j) is Some,
        walk_body(segs, body, t, fallback, i) == walk_body(segs, body, t, fallback, j),
    ensures
        walk_body(segs, body, t, fallback, m) is Some,
    decreases m,
{
    if m <= j {
        lemma_walk_prefix(segs, body, t, fallback, m, j);
    } else {
        let r = (m - j) as nat;
        lemma_walk_compose(segs, body, t, fallback, j, r);
        lemma_walk_compose(segs, body, t, fallback, i, r);
        lemma_repeating_walk_goes_on(segs, body, t, fallback, i, j, i + r);
    }
}

/// `path_fuel` bounds every walk that ends: a walk towards the barycentre
/// that does not end within `path_fuel(segs)` bodies never ends (its
/// centers loop), and one that ends within it ends the same way with any
/// larger bound.
pub proof fn law_path_fuel_suffices(
    segs: Seq<BspSegment>,
    target: i32,
    t: u64,
    fallback: CoverTest,
    fuel: nat,
)
    requires
        fuel >= path_fuel(segs),
    ensures
        spec_ssb_path(segs, target, t, fallback, fuel).1 == spec_ssb_path(segs, target, t, fallback, path_fuel(segs)).1,
        spec_ssb_path(segs, target, t, fallback, path_fuel(segs)).1 != PathEnd::CenterLoop
            ==> spec_ssb_path(segs, target, t, fallback, fuel) == spec_ssb_path(
            segs,
            target,
            t,
            fallback,
            path_fuel(segs),
        ),
{
    let base = spec_ssb_path(segs, target, t, fallback, path_fuel(segs));
    if base.1 == PathEnd::CenterLoop {
        lemma_center_loop_iff_walk_goes_on(segs, target, t, fallback, path_fuel(segs));
        let (i, j) = lemma_walk_repeats(segs, target, t, fallback);
        lemma_repeating_walk_goes_on(segs, target, t, fallback, i, j, fuel);
        lemma_center_loop_iff_walk_goes_on(segs, target, t, fallback, fuel);
    } else {
        lemma_finished_walk_is_stable(segs, target, t, fallback, path_fuel(segs), fuel);
    }
}

} // verus!

verus! {

/// The `n` bytes at `off` of `be` are the `n` bytes at `off` of `le` in
/// reverse order: one number, stored little-endian in `le` and big-endian
/// in `be`.
#[verifier::opaque]
pub open spec fn bytes_reversed(le: Seq<u8>, be: Seq<u8>, off: int, n: int) -> bool {
    &&& 0 <= off
    &&& 0 <= n
    &&& off + n <= le.len()
    &&& off + n <= be.len()
    &&& be.subrange(off, off + n) == le.subrange(off, off + n).reverse()
}

/// Double `j` of the summary at `base` is byte-reversed.
pub open spec fn summary_double_reversed(le: Seq<u8>, be: Seq<u8>, base: int, j: int) -> bool {
    bytes_reversed(le, be, base + 8 * j, 8)
}

/// Integer `j` of the summary at `base`, whose integers start after `nd`
/// doubles, is byte-reversed.
pub open spec fn summary_int_reversed(le: Seq<u8>, be: Seq<u8>, base: int, nd: usize, j: int) -> bool {
    bytes_reversed(le, be, base + 8 * nd + 4 * j, 4)
}

/// Every number of the summary at `base` is byte-reversed: its `nd`
/// doubles and its `ni` integers.
pub open spec fn summary_reversed(le: Seq<u8>, be: Seq<u8>, base: int, nd: usize, ni: usize) -> bool {
    &&& forall|j: int| 0 <= j < nd ==> #[trigger] summary_double_reversed(le, be, base, j)
    &&& forall|j: int| 0 <= j < ni ==> #[trigger] summary_int_reversed(le, be, base, nd, j)
}

/// Every number of the summary record at byte `off` of `le` is
/// byte-reversed in `be`: its three control doubles (next record, previous
/// record, number of summaries) and each of its summaries.
pub open spec fn summary_record_reversed(le: Seq<u8>, be: Seq<u8>, off: int, nd: usize, ni: usize) -> bool {
    &&& bytes_reversed(le, be, off, 8)
    &&& bytes_reversed(le, be, off + 8, 8)
    &&& bytes_reversed(le, be, off + 16, 8)
    &&& forall|i: int|
        0 <= i < record_count(le, off, true) ==> #[trigger] summary_reversed(
            le,
            be,
            summary_base(off, i, nd, ni),
            nd,
            ni,
        )
}

/// Every summary record on the chain that `le` holds from record `rec` on,
/// for at most `fuel` records, is byte-reversed in `be`.
pub open spec fn summary_chain_reversed(
    le: Seq<u8>,
    be: Seq<u8>,
    rec: int,
    nd: usize,
    ni: usize,
    fuel: nat,
) -> bool
    decreases fuel,
{
    if rec == 0 || fuel == 0 {
        true
    } else {
        &&& summary_record_reversed(le, be, record_offset(rec), nd, ni)
        &&& summary_chain_reversed(
            le,
            be,
            record_next(le, record_offset(rec), true),
            nd,
            ni,
            (fuel - 1) as nat,
        )
    }
}

/// `be` is the big-endian twin of the little-endian file `le`: the same
/// bytes, except that `LOCFMT` reads `BIG-IEEE` in place of `LTL-IEEE`
/// and that every number of the file record (`ND`, `NI`, `FWARD`) and of
/// the summary records is stored in the other byte order.
pub open spec fn big_endian_twin(le: Seq<u8>, be: Seq<u8>) -> bool {
    &&& le.len() == be.len()
    &&& le.len() >= RECORD_SIZE
    &&& be.subrange(0, 8) == le.subrange(0, 8)
    &&& be.subrange(16, 76) == le.subrange(16, 76)
    &&& le.subrange(88, 96) == encode_utf8("LTL-IEEE"@)
    &&& be.subrange(88, 96) == encode_utf8("BIG-IEEE"@)
    &&& bytes_reversed(le, be, 8, 4)
    &&& bytes_reversed(le, be, 12, 4)
    &&& bytes_reversed(le, be, 76, 4)
    &&& summary_chain_reversed(
        le,
        be,
        file_first_summary(le) as int,
        file_nd(le),
        file_ni(le),
        chain_fuel(le),
    )
}

proof fn lemma_u32_reversed(le: Seq<u8>, be: Seq<u8>, off: int)
    requires
        bytes_reversed(le, be, off, 4),
    ensures
        spec_u32_at(be, off, false) == spec_u32_at(le, off, true),
        spec_i32_at(be, off, false) == spec_i32_at(le, off, true),
{
    reveal(bytes_reversed);
    let b = be.subrange(off, off + 4);
    let l = le.subrange(off, off + 4).reverse();
    assert(b[0] == be[off] && b[1] == be[off + 1] && b[2] == be[off + 2] && b[3] == be[off + 3]);
    assert(l[0] == le[off + 3] && l[1] == le[off + 2] && l[2] == le[off + 1] && l[3] == le[off]);
}

proof fn lemma_u64_reversed(le: Seq<u8>, be: Seq<u8>, off: int)
    requires
        bytes_reversed(le, be, off, 8),
    ensures
        spec_u64_at(be, off, false) == spec_u64_at(le, off, true),
{
    reveal(bytes_reversed);
    let b = be.subrange(off, off + 8);
    let l = le.subrange(off, off + 8).reverse();
    assert(b[0] == be[off] && b[1] == be[off + 1] && b[2] == be[off + 2] && b[3] == be[off + 3]);
    assert(b[4] == be[off + 4] && b[5] == be[off + 5] && b[6] == be[off + 6] && b[7] == be[off + 7]);
    assert(l[0] == le[off + 7] && l[1] == le[off + 6] && l[2] == le[off + 5] && l[3] == le[off + 4]);
    assert(l[4] == le[off + 3] && l[5] == le[off + 2] && l[6] == le[off + 1] && l[7] == le[off]);
}

proof fn lemma_locfmt(bytes: Seq<u8>, s: Seq<char>)
    requires
        bytes == encode_utf8(s),
    ensures
        utf8_or_empty(bytes) == s,
{
    broadcast use {encode_utf8_valid_utf8, encode_utf8_decode_utf8};

}

proof fn lemma_summary_reversed(le: Seq<u8>, be: Seq<u8>, base: int, nd: usize, ni: usize)
    requires
        summary_reversed(le, be, base, nd, ni),
        nd >= 2,
        ni >= 6,
    ensures
        summary_at(be, base, nd, false) == summary_at(le, base, nd, true),
{
    assert(summary_double_reversed(le, be, base, 0));
    assert(summary_double_reversed(le, be, base, 1));
    lemma_u64_reversed(le, be, base);
    lemma_u64_reversed(le, be, base + 8);
    let ib = base + nd * 8;
    assert(summary_int_reversed(le, be, base, nd, 0));
    assert(summary_int_reversed(le, be, base, nd, 1));
    assert(summary_int_reversed(le, be, base, nd, 3));
    assert(summary_int_reversed(le, be, base, nd, 4));
    assert(summary_int_reversed(le, be, base, nd, 5));
    lemma_u32_reversed(le, be, ib);
    lemma_u32_reversed(le, be, ib + 4);
    lemma_u32_reversed(le, be, ib + 12);
    lemma_u32_reversed(le, be, ib + 16);
    lemma_u32_reversed(le, be, ib + 20);
}

proof fn lemma_record_summary_reversed(le: Seq<u8>, be: Seq<u8>, off: int, nd: usize, ni: usize, i: int)
    requires
        summary_record_reversed(le, be, off, nd, ni),
        0 <= i < record_count(le, off, true),
        nd >= 2,
        ni >= 6,
    ensures
        summary_at(be, summary_base(off, i, nd, ni), nd, false) == summary_at(
            le,
            summary_base(off, i, nd, ni),
            nd,
            true,
        ),
{
    assert(summary_reversed(le, be, summary_base(off, i, nd, ni), nd, ni));
    lemma_summary_reversed(le, be, summary_base(off, i, nd, ni), nd, ni);
}

proof fn lemma_summary_record_reversed(le: Seq<u8>, be: Seq<u8>, off: int, nd: usize, ni: usize)
    requires
        le.len() == be.len(),
        summary_record_reversed(le, be, off, nd, ni),
        nd >= 2,
        ni >= 6,
    ensures
        record_next(be, off, false) == record_next(le, off, true),
        record_count(be, off, false) == record_count(le, off, true),
        record_in_bounds(be, off, nd, ni, false) == record_in_bounds(le, off, nd, ni, true),
        record_segments(be, off, nd, ni, false) == record_segments(le, off, nd, ni, true),
{
    lemma_u64_reversed(le, be, off);
    lemma_u64_reversed(le, be, off + 16);
    assert(record_in_bounds(be, off, nd, ni, false) == record_in_bounds(le, off, nd, ni, true)) by {
        reveal(record_in_bounds);
    }
    let sb = record_segments(be, off, nd, ni, false);
    let sl = record_segments(le, off, nd, ni, true);
    lemma_round_to_usize_nonnegative(spec_u64_at(le, off + 16, true) as u64);
    assert(sb =~= sl) by {
        reveal(record_segments);
        assert forall|i: int| 0 <= i < sl.len() implies #[trigger] sb[i] == sl[i] by {
            lemma_record_summary_reversed(le, be, off, nd, ni, i);
        }
    }
}

proof fn lemma_summary_chain_reversed(
    le: Seq<u8>,
    be: Seq<u8>,
    rec: int,
    nd: usize,
    ni: usize,
    fuel: nat,
)
    requires
        le.len() == be.len(),
        summary_chain_reversed(le, be, rec, nd, ni, fuel),
        nd >= 2,
        ni >= 6,
    ensures
        chain_in_bounds(be, rec, nd, ni, false, fuel) == chain_in_bounds(le, rec, nd, ni, true, fuel),
        chain_segments(be, rec, nd, ni, false, fuel) == chain_segments(le, rec, nd, ni, true, fuel),
    decreases fuel,
{
    if rec != 0 && fuel != 0 {
        lemma_summary_record_reversed(le, be, record_offset(rec), nd, ni);
        lemma_summary_chain_reversed(
            le,
            be,
            record_next(le, record_offset(rec), true),
            nd,
            ni,
            (fuel - 1) as nat,
        );
    }
}

/// A file reads the same in either byte order: the big-endian twin of a
/// little-endian file (the same bytes with `LOCFMT` set to `BIG-IEEE` and
/// every number of the file record and of the summary records stored in
/// the other byte order) is accepted or rejected as the file is, with the
/// same error, can be read exactly when the file can, and has the same
/// internal name and the same segments, in the same order. The summaries
/// are those of SPK files, with at least two doubles and six integers.
pub proof fn law_big_endian_twin_reads_the_same(le: Seq<u8>, be: Seq<u8>)
    requires
        big_endian_twin(le, be),
        file_nd(le) >= 2,
        file_ni(le) >= 6,
    ensures
        file_is_le(le),
        !file_is_le(be),
        file_record_accepted(be) == file_record_accepted(le),
        file_record_error(be) == file_record_error(le),
        file_name(be) == file_name(le),
        file_nd(be) == file_nd(le),
        file_ni(be) == file_ni(le),
        file_first_summary(be) == file_first_summary(le),
        bytes_loadable(be) == bytes_loadable(le),
        file_segments(be) == file_segments(le),
{
    reveal_strlit("LTL-IEEE");
    reveal_strlit("BIG-IEEE");
    lemma_locfmt(le.subrange(88, 96), "LTL-IEEE"@);
    lemma_locfmt(be.subrange(88, 96), "BIG-IEEE"@);
    assert(trim("LTL-IEEE"@) == "LTL-IEEE"@);
    assert(trim("BIG-IEEE"@) == "BIG-IEEE"@);
    assert("LTL-IEEE"@[0] != "BIG-IEEE"@[0]);
    lemma_u32_reversed(le, be, 8);
    lemma_u32_reversed(le, be, 12);
    lemma_u32_reversed(le, be, 76);
    lemma_summary_chain_reversed(
        le,
        be,
        file_first_summary(le) as int,
        file_nd(le),
        file_ni(le),
        chain_fuel(le),
    );
}

/// The double at DAF address `a` (numbered from 1, eight bytes each) is
/// byte-reversed.
pub open spec fn address_reversed(le: Seq<u8>, be: Seq<u8>, a: int) -> bool {
    bytes_reversed(le, be, (a - 1) * 8, 8)
}

/// Every double of the data of `seg`, from address `start_idx` to
/// `end_idx`, is byte-reversed.
pub open spec fn segment_data_reversed(le: Seq<u8>, be: Seq<u8>, seg: BspSegment) -> bool {
    forall|a: int| seg.start_idx <= a <= seg.end_idx ==> #[trigger] address_reversed(le, be, a)
}

/// The data of a segment reads the same in either byte order: where every
/// double of a segment's data is stored in the other byte order, the
/// segment's closing metadata reads the same, and so does every double of
/// the data (the midpoint and radius of each record among them) and every
/// coefficient of a record whose bytes lie within the data.
pub proof fn law_reversed_segment_data_reads_the_same(le: Seq<u8>, be: Seq<u8>, seg: BspSegment)
    requires
        segment_data_reversed(le, be, seg),
        seg.start_idx >= 1,
        seg.end_idx >= seg.start_idx + 3,
    ensures
        spec_segment_meta(be, meta_offset(seg), false) == spec_segment_meta(le, meta_offset(seg), true),
        forall|off: int|
            off % 8 == 0 && data_start(seg) <= off && off + 8 <= seg.end_idx * 8 ==> #[trigger] spec_u64_at(
                be,
                off,
                false,
            ) == spec_u64_at(le, off, true),
        forall|off: int, ncoeff: int, k: int, i: int|
            off % 8 == 0 && data_start(seg) <= off && 0 <= k && 0 <= i < ncoeff && off + 16 + (k
                * ncoeff + i) * 8 + 8 <= seg.end_idx * 8 ==> #[trigger] spec_coefficient(
                be,
                off,
                ncoeff,
                k,
                i,
                false,
            ) == spec_coefficient(le, off, ncoeff, k, i, true),
{
    let m = meta_offset(seg);
    let e = seg.end_idx as int;
    assert(address_reversed(le, be, e - 3));
    assert(address_reversed(le, be, e - 2));
    assert(address_reversed(le, be, e - 1));
    assert(address_reversed(le, be, e));
    lemma_u64_reversed(le, be, m);
    lemma_u64_reversed(le, be, m + 8);
    lemma_u64_reversed(le, be, m + 16);
    lemma_u64_reversed(le, be, m + 24);
    assert forall|off: int|
        off % 8 == 0 && data_start(seg) <= off && off + 8 <= seg.end_idx * 8 implies #[trigger] spec_u64_at(
            be,
            off,
            false,
        ) == spec_u64_at(le, off, true) by {
        let q = off / 8;
        assert(off == 8 * q);
        assert(address_reversed(le, be, q + 1));
        lemma_u64_reversed(le, be, off);
    }
    assert forall|off: int, ncoeff: int, k: int, i: int|
        off % 8 == 0 && data_start(seg) <= off && 0 <= k && 0 <= i < ncoeff && off + 16 + (k * ncoeff
            + i) * 8 + 8 <= seg.end_idx * 8 implies #[trigger] spec_coefficient(
            be,
            off,
            ncoeff,
            k,
            i,
            false,
        ) == spec_coefficient(le, off, ncoeff, k, i, true) by {
        let q = off / 8;
        assert(off == 8 * q);
        let p = k * ncoeff + i;
        assert(0 <= p) by (nonlinear_arith)
            requires
                0 <= k,
                0 <= i,
                0 <= ncoeff,
                p == k * ncoeff + i,
        ;
        assert(address_reversed(le, be, q + 3 + p));
        lemma_u64_reversed(le, be, off + 16 + p * 8);
    }
}

} // verus!

verus! {

/// Only SPK types 2 and 3 are read: type 2 records hold three polynomial
/// sets (position), type 3 records six (position and velocity), and every
/// other type is refused.
pub proof fn law_supported_types(spk_type: i32)
    ensures
        (spec_spk_components(spk_type) == Some(3usize)) == (spk_type == 2),
        (spec_spk_components(spk_type) == Some(6usize)) == (spk_type == 3),
        (spec_spk_components(spk_type) is None) == (spk_type != 2 && spk_type != 3),
{
}

/// A segment that gives `target` from `center` and whose interval holds `t`
/// is found, for every center: when segment `j` is the first such segment,
/// the lookup gives segment `j` with three sets per record if its type is 2
/// and six if its type is 3, and fails with `UnsupportedType` naming its
/// type otherwise.
pub proof fn law_first_covering_segment_is_located(
    segs: Seq<BspSegment>,
    target: i32,
    center: i32,
    t: u64,
    j: int,
)
    requires
        segs.len() <= usize::MAX,
        0 <= j < segs.len(),
        segs[j].target == target,
        segs[j].center == center,
        double_le(segs[j].start_sec_bits, t),
        double_le(t, segs[j].end_sec_bits),
        forall|i: int|
            0 <= i < j ==> !((#[trigger] segs[i]).target == target && segs[i].center == center
                && double_le(segs[i].start_sec_bits, t) && double_le(t, segs[i].end_sec_bits)),
    ensures
        spec_locate_segment(segs, target, center, t) == if segs[j].spk_type == 2 {
            Ok::<SegmentStep, BspError>(SegmentStep { segment: j as usize, components: 3 })
        } else if segs[j].spk_type == 3 {
            Ok::<SegmentStep, BspError>(SegmentStep { segment: j as usize, components: 6 })
        } else {
            Err::<SegmentStep, BspError>(BspError::UnsupportedType(segs[j].spk_type))
        },
{
    lemma_first_selected(segs, target, Some(center), t, CoverTest::Within);
    let r = first_selected(segs, target, Some(center), t, CoverTest::Within);
    assert(segment_selected(segs[j], target, Some(center), t, CoverTest::Within));
    if let Some(k) = r {
        if k < j {
            assert(segment_selected(segs[k], target, Some(center), t, CoverTest::Within));
        }
        if k > j {
            assert(!segment_selected(segs[j], target, Some(center), t, CoverTest::Within));
        }
    }
}

/// Where no segment gives `target` from `center` directly, the position is
/// that of `target` from the barycentre minus that of `center`: the plan
/// holds the walk of `target` and, when that walk reaches the barycentre,
/// the walk of `center` for every center other than the barycentre (whose
/// own position is zero, so that it is left out only for it).
pub proof fn law_chained_plan_subtracts_the_center_walk(
    segs: Seq<BspSegment>,
    target: i32,
    center: i32,
    t: u64,
    fallback: CoverTest,
)
    requires
        target != center,
        forall|i: int|
            0 <= i < segs.len() ==> !((#[trigger] segs[i]).target == target && segs[i].center == center
                && double_le(segs[i].start_sec_bits, t) && double_le(t, segs[i].end_sec_bits)),
    ensures
        spec_position_plan(segs, target, center, t, fallback) matches Ok(PlanView::Chained(tp, cp)) && {
            &&& tp == spec_ssb_path(segs, target, t, fallback, path_fuel(segs))
            &&& center == SSB ==> cp is None
            &&& tp.1 == PathEnd::Reached && center != SSB ==> cp == Some(
                spec_ssb_path(segs, center, t, fallback, path_fuel(segs)),
            )
            &&& tp.1 != PathEnd::Reached ==> cp is None
        },
{
    lemma_first_selected(segs, target, Some(center), t, CoverTest::Within);
    if let Some(k) = first_selected(segs, target, Some(center), t, CoverTest::Within) {
        assert(segment_selected(segs[k], target, Some(center), t, CoverTest::Within));
    }
}

/// The record index is the index computed from the time clamped to the
/// records of the segment, `0 ..= n - 1`: an index within them is kept,
/// one before the first record gives the first, and one after the last
/// gives the last (for any count of records that `isize` holds).
pub proof fn law_record_index_clamps(raw: isize, n: usize)
    requires
        clamp_ok(n),
    ensures
        1 <= n <= isize::MAX && 0 <= raw <= n - 1 ==> clamp_record_index(raw, n) == raw,
        1 <= n <= isize::MAX && raw < 0 ==> clamp_record_index(raw, n) == 0,
        1 <= n <= isize::MAX && raw > n - 1 ==> clamp_record_index(raw, n) == n - 1,
{
}

/// The record count and record size of a segment are read back exactly:
/// when the doubles at `off + 16` and `off + 24` hold whole numbers, the
/// decoded record size and number of records are those numbers (capped at
/// `usize::MAX`); the start epoch and the interval length are the bit
/// patterns stored at `off` and `off + 8`.
pub proof fn law_segment_meta_reads_whole_counts(data: Seq<u8>, off: int, le: bool)
    ensures
        spec_segment_meta(data, off, le).init_epoch_bits == spec_u64_at(data, off, le) as u64,
        spec_segment_meta(data, off, le).intlen_bits == spec_u64_at(data, off + 8, le) as u64,
        ({
            let bits = spec_u64_at(data, off + 24, le) as u64;
            bits < DOUBLE_SIGN && double_exponent(bits) != 0x7ff && (double_shift(bits) > 0
                ==> double_significand(bits) % pow2(double_shift(bits) as nat) as int == 0)
                ==> spec_segment_meta(data, off, le).n == if double_whole_value(bits) > usize::MAX {
                usize::MAX as int
            } else {
                double_whole_value(bits)
            }
        }),
        ({
            let bits = spec_u64_at(data, off + 16, le) as u64;
            bits < DOUBLE_SIGN && double_exponent(bits) != 0x7ff && (double_shift(bits) > 0
                ==> double_significand(bits) % pow2(double_shift(bits) as nat) as int == 0)
                ==> spec_segment_meta(data, off, le).rsize == if double_whole_value(bits) > usize::MAX {
                usize::MAX as int
            } else {
                double_whole_value(bits)
            }
        }),
{
    let nb = spec_u64_at(data, off + 24, le) as u64;
    let rb = spec_u64_at(data, off + 16, le) as u64;
    lemma_round_to_usize_nonnegative(nb);
    lemma_round_to_usize_nonnegative(rb);
    if nb < DOUBLE_SIGN && double_exponent(nb) != 0x7ff && (double_shift(nb) > 0
        ==> double_significand(nb) % pow2(double_shift(nb) as nat) as int == 0) {
        law_whole_doubles_round_to_their_value(nb);
    }
    if rb < DOUBLE_SIGN && double_exponent(rb) != 0x7ff && (double_shift(rb) > 0
        ==> double_significand(rb) % pow2(double_shift(rb) as nat) as int == 0) {
        law_whole_doubles_round_to_their_value(rb);
    }
}

} // verus!

verus! {

/// The bytes of a 32-bit word are its base-256 digits: the lowest digit
/// first when the word is little-endian, the highest first otherwise.
pub proof fn law_word_bytes_are_its_digits(s: Seq<u8>, off: int, le: bool)
    ensures
        ({
            let v = spec_u32_at(s, off, le);
            let (d0, d1, d2, d3) = if le {
                (s[off], s[off + 1], s[off + 2], s[off + 3])
            } else {
                (s[off + 3], s[off + 2], s[off + 1], s[off])
            };
            &&& 0 <= v < 0x1_0000_0000
            &&& v % 256 == d0
            &&& v / 256 % 256 == d1
            &&& v / 256 / 256 % 256 == d2
            &&& v / 256 / 256 / 256 == d3
        }),
{
    let v = spec_u32_at(s, off, le);
    let (d0, d1, d2, d3) = if le {
        (s[off], s[off + 1], s[off + 2], s[off + 3])
    } else {
        (s[off + 3], s[off + 2], s[off + 1], s[off])
    };
    let q1 = d1 + 256 * (d2 + 256 * d3);
    let q2 = d2 + 256 * d3;
    assert(v == q1 * 256 + d0);
    lemma_fundamental_div_mod_converse(v, 256, q1, d0 as int);
    lemma_fundamental_div_mod_converse(q1, 256, q2, d1 as int);
    lemma_fundamental_div_mod_converse(q2, 256, d3 as int, d2 as int);
}

/// The bytes of a 64-bit word (the bit pattern of a double) are its
/// base-256 digits: the lowest digit first when the word is little-endian,
/// the highest first otherwise.
pub proof fn law_double_bytes_are_its_digits(s: Seq<u8>, off: int, le: bool, i: int)
    requires
        0 <= i < 8,
    ensures
        ({
            let v = spec_u64_at(s, off, le);
            &&& 0 <= v < 0x1_0000_0000_0000_0000
            &&& v / pow2((8 * i) as nat) as int % 256 == if le {
                s[off + i]
            } else {
                s[off + 7 - i]
            }
        }),
{
    let v = spec_u64_at(s, off, le);
    let d = Seq::new(8, |k: int| if le { s[off + k] as int } else { s[off + 7 - k] as int });
    // q[k] is the number formed by the digits from k on
    let q = Seq::new(
        9,
        |k: int|
            if k >= 8 {
                0
            } else if k == 7 {
                d[7]
            } else if k == 6 {
                d[6] + 256 * d[7]
            } else if k == 5 {
                d[5] + 256 * (d[6] + 256 * d[7])
            } else if k == 4 {
                d[4] + 256 * (d[5] + 256 * (d[6] + 256 * d[7]))
            } else if k == 3 {
                d[3] + 256 * (d[4] + 256 * (d[5] + 256 * (d[6] + 256 * d[7])))
            } else if k == 2 {
                d[2] + 256 * (d[3] + 256 * (d[4] + 256 * (d[5] + 256 * (d[6] + 256 * d[7]))))
            } else if k == 1 {
                d[1] + 256 * (d[2] + 256 * (d[3] + 256 * (d[4] + 256 * (d[5] + 256 * (d[6] + 256
                    * d[7])))))
            } else {
                d[0] + 256 * (d[1] + 256 * (d[2] + 256 * (d[3] + 256 * (d[4] + 256 * (d[5] + 256 * (
                d[6] + 256 * d[7]))))))
            },
    );
    assert(v == q[0]);
    vstd::arithmetic::power2::lemma2_to64();
    vstd::arithmetic::power2::lemma_pow2_adds(32, 24);
    vstd::arithmetic::power2::lemma_pow2_adds(32, 32);
    assert forall|k: int| 0 <= k < 8 implies q[k] == q[k + 1] * 256 + d[k] && 0 <= d[k] < 256
        && q[k] >= 0 by {}
    assert forall|k: int| 0 <= k < 8 implies q[k] / 256 == q[k + 1] && q[k] % 256 == d[k] by {
        lemma_fundamental_div_mod_converse(q[k], 256, q[k + 1], d[k]);
    }
    assert(q[0] < 0x1_0000_0000_0000_0000);
    // v / 2^(8k) == q[k]
    assert forall|k: int| 0 <= k <= 8 implies v / pow2((8 * k) as nat) as int == q[k] by {
        lemma_shift_digits(q, k);
    }
}

proof fn lemma_shift_digits(q: Seq<int>, k: int)
    requires
        q.len() == 9,
        0 <= k <= 8,
        forall|m: int| 0 <= m < 8 ==> (#[trigger] q[m]) / 256 == q[m + 1],
        forall|m: int| 0 <= m < 9 ==> #[trigger] q[m] >= 0,
    ensures
        q[0] / pow2((8 * k) as nat) as int == q[k],
    decreases k,
{
    vstd::arithmetic::power2::lemma2_to64();
    if k == 0 {
        assert(pow2((8 * k) as nat) == 1);
        assert(q[0] / 1 == q[0]);
    } else {
        lemma_shift_digits(q, k - 1);
        let p = pow2((8 * (k - 1)) as nat) as int;
        vstd::arithmetic::power2::lemma_pow2_adds((8 * (k - 1)) as nat, 8);
        vstd::arithmetic::power2::lemma_pow2_pos((8 * (k - 1)) as nat);
        assert((8 * (k - 1)) as nat + 8 == (8 * k) as nat);
        assert(pow2(8) == 256);
        assert(pow2((8 * k) as nat) as int == p * 256);
        vstd::arithmetic::div_mod::lemma_div_denominator(q[0], p, 256);
        assert(q[0] / (p * 256) == q[0] / p / 256);
        assert(q[0] / p == q[k - 1]);
        assert(q[k - 1] / 256 == q[k]);
        let big = pow2((8 * k) as nat) as int;
        assert(q[0] / big == q[0] / (p * 256));
    }
}

/// Doubles compare as IEEE-754 numbers: a NaN compares with nothing, every
/// other double equals itself, any two such are ordered one way or the
/// other, and the order is transitive. Among the positive doubles a larger
/// bit pattern is a larger number, among the negative ones a smaller
/// number, every negative double lies below every positive one, and the
/// two zeros are equal.
pub proof fn law_doubles_compare_as_numbers(a: u64, b: u64, c: u64)
    ensures
        double_is_nan(a) ==> !double_le(a, b) && !double_le(b, a),
        !double_is_nan(a) ==> double_le(a, a),
        !double_is_nan(a) && !double_is_nan(b) ==> double_le(a, b) || double_le(b, a),
        double_le(a, b) && double_le(b, c) ==> double_le(a, c),
        !double_is_nan(a) && !double_is_nan(b) && a < DOUBLE_SIGN && b < DOUBLE_SIGN ==> (double_le(
            a,
            b,
        ) == (a <= b)),
        !double_is_nan(a) && !double_is_nan(b) && a >= DOUBLE_SIGN && b >= DOUBLE_SIGN ==> (double_le(
            a,
            b,
        ) == (a >= b)),
        !double_is_nan(a) && !double_is_nan(b) && a >= DOUBLE_SIGN && b < DOUBLE_SIGN ==> double_le(a, b)
            && (double_le(b, a) == (b == 0 && a == DOUBLE_SIGN)),
{
}

/// A negative double, and a NaN, is converted to the record number 0, and
/// positive infinity to `usize::MAX`, as `round() as usize` saturates.
pub proof fn law_rounding_saturates(bits: u64)
    ensures
        bits >= DOUBLE_SIGN ==> double_round_to_usize(bits) == 0,
        double_is_nan(bits) ==> double_round_to_usize(bits) == 0,
        bits == 0x7ff0_0000_0000_0000 ==> double_round_to_usize(bits) == usize::MAX,
{
    if bits == 0x7ff0_0000_0000_0000 {
        assert(double_exponent(bits) == 0x7ff);
        assert(double_fraction(bits) == 0);
    }
}

proof fn lemma_trim_start(s: Seq<char>) -> (i: int)
    ensures
        0 <= i <= s.len(),
        trim_start(s) == s.subrange(i, s.len() as int),
        forall|k: int| 0 <= k < i ==> is_white_space(#[trigger] s[k]),
        i < s.len() ==> !is_white_space(s[i]),
    decreases s.len(),
{
    if s.len() > 0 && is_white_space(s[0]) {
        let j = lemma_trim_start(s.drop_first());
        assert(s.drop_first().subrange(j, s.len() - 1) =~= s.subrange(j + 1, s.len() as int));
        assert forall|k: int| 0 <= k < j + 1 implies is_white_space(#[trigger] s[k]) by {
            if k > 0 {
                assert(s[k] == s.drop_first()[k - 1]);
            }
        }
        j + 1
    } else {
        assert(s.subrange(0, s.len() as int) =~= s);
        0
    }
}

proof fn lemma_trim_end(s: Seq<char>) -> (j: int)
    ensures
        0 <= j <= s.len(),
        trim_end(s) == s.subrange(0, j),
        forall|k: int| j <= k < s.len() ==> is_white_space(#[trigger] s[k]),
        j > 0 ==> !is_white_space(s[j - 1]),
    decreases s.len(),
{
    if s.len() > 0 && is_white_space(s.last()) {
        let j = lemma_trim_end(s.drop_last());
        assert(s.drop_last().subrange(0, j) =~= s.subrange(0, j));
        assert forall|k: int| j <= k < s.len() implies is_white_space(#[trigger] s[k]) by {
            if k < s.len() - 1 {
                assert(s[k] == s.drop_last()[k]);
            }
        }
        j
    } else {
        assert(s.subrange(0, s.len() as int) =~= s);
        s.len() as int
    }
}

/// Trimming removes exactly the white space at both ends: the result is
/// the part of `s` from `i` to `j`, everything before `i` and from `j` on
/// is white space, and the result neither starts nor ends with white space.
pub proof fn law_trim_removes_outer_white_space(s: Seq<char>) -> (r: (int, int))
    ensures
        0 <= r.0 <= r.1 <= s.len(),
        trim(s) == s.subrange(r.0, r.1),
        forall|k: int| 0 <= k < r.0 ==> is_white_space(#[trigger] s[k]),
        forall|k: int| r.1 <= k < s.len() ==> is_white_space(#[trigger] s[k]),
        r.0 < r.1 ==> !is_white_space(s[r.0]) && !is_white_space(s[r.1 - 1]),
{
    let i = lemma_trim_start(s);
    let rest = s.subrange(i, s.len() as int);
    let j = lemma_trim_end(rest);
    assert(rest.subrange(0, j) =~= s.subrange(i, i + j));
    assert forall|k: int| i + j <= k < s.len() implies is_white_space(#[trigger] s[k]) by {
        assert(s[k] == rest[k - i]);
    }
    if j > 0 {
        assert(s[i] == rest[0]);
        assert(s[i + j - 1] == rest[j - 1]);
    }
    (i, i + j)
}

} // verus!

verus! {

/// The walk from a body takes the first segment of the body measured from
/// the barycentre whose interval holds `t`, when there is one: the walk is
/// that segment alone (three sets per record for type 2, six for type 3),
/// or fails with `UnsupportedType` naming its type.
pub proof fn law_walk_takes_first_barycentric_segment(
    segs: Seq<BspSegment>,
    target: i32,
    t: u64,
    fallback: CoverTest,
    fuel: nat,
    j: int,
)
    requires
        fuel >= 1,
        target != SSB,
        segs.len() <= usize::MAX,
        0 <= j < segs.len(),
        segs[j].target == target,
        segs[j].center == SSB,
        double_le(segs[j].start_sec_bits, t),
        double_le(t, segs[j].end_sec_bits),
        forall|i: int|
            0 <= i < j ==> !((#[trigger] segs[i]).target == target && segs[i].center == SSB
                && double_le(segs[i].start_sec_bits, t) && double_le(t, segs[i].end_sec_bits)),
    ensures
        spec_ssb_path(segs, target, t, fallback, fuel) == if segs[j].spk_type == 2 {
            (seq![SegmentStep { segment: j as usize, components: 3 }], PathEnd::Reached)
        } else if segs[j].spk_type == 3 {
            (seq![SegmentStep { segment: j as usize, components: 6 }], PathEnd::Reached)
        } else {
            (Seq::<SegmentStep>::empty(), PathEnd::UnsupportedType(segs[j].spk_type))
        },
{
    lemma_first_selected(segs, target, Some(SSB), t, CoverTest::Within);
    assert(segment_selected(segs[j], target, Some(SSB), t, CoverTest::Within));
    if let Some(k) = first_selected(segs, target, Some(SSB), t, CoverTest::Within) {
        if k < j {
            assert(segment_selected(segs[k], target, Some(SSB), t, CoverTest::Within));
        }
    }
}

/// Where no segment of a body measured from the barycentre holds `t`, the
/// walk takes the first segment of the body, whatever its center, that
/// covers `t` by the `fallback` test: it fails with `UnsupportedType` when
/// that segment is not of type 2 or 3, ends with it when it is measured
/// from the barycentre, and otherwise goes on from its center.
pub proof fn law_walk_goes_on_from_the_first_covering_segment(
    segs: Seq<BspSegment>,
    target: i32,
    t: u64,
    fallback: CoverTest,
    fuel: nat,
    j: int,
)
    requires
        fuel >= 1,
        target != SSB,
        segs.len() <= usize::MAX,
        forall|i: int|
            0 <= i < segs.len() ==> !((#[trigger] segs[i]).target == target && segs[i].center == SSB
                && double_le(segs[i].start_sec_bits, t) && double_le(t, segs[i].end_sec_bits)),
        0 <= j < segs.len(),
        segs[j].target == target,
        segment_covers_by(segs[j], t, fallback),
        forall|i: int|
            0 <= i < j ==> !((#[trigger] segs[i]).target == target && segment_covers_by(
                segs[i],
                t,
                fallback,
            )),
    ensures
        ({
            let path = spec_ssb_path(segs, target, t, fallback, fuel);
            let ty = segs[j].spk_type;
            let step = SegmentStep { segment: j as usize, components: if ty == 2 { 3 } else { 6 } };
            let rest = spec_ssb_path(segs, segs[j].center, t, fallback, (fuel - 1) as nat);
            &&& ty != 2 && ty != 3 ==> path == (Seq::<SegmentStep>::empty(), PathEnd::UnsupportedType(ty))
            &&& (ty == 2 || ty == 3) && segs[j].center == SSB ==> path == (seq![step], PathEnd::Reached)
            &&& (ty == 2 || ty == 3) && segs[j].center != SSB ==> path == (seq![step] + rest.0, rest.1)
        }),
{
    lemma_first_selected(segs, target, Some(SSB), t, CoverTest::Within);
    lemma_first_selected(segs, target, None, t, fallback);
    if let Some(k) = first_selected(segs, target, Some(SSB), t, CoverTest::Within) {
        assert(segment_selected(segs[k], target, Some(SSB), t, CoverTest::Within));
    }
    assert(segment_selected(segs[j], target, None, t, fallback));
    if let Some(k) = first_selected(segs, target, None, t, fallback) {
        if k < j {
            assert(segment_selected(segs[k], target, None, t, fallback));
        }
    }
}

/// A body with no segment that covers `t` is not found by the walk.
pub proof fn law_walk_of_uncovered_body_is_not_found(
    segs: Seq<BspSegment>,
    target: i32,
    t: u64,
    fallback: CoverTest,
    fuel: nat,
)
    requires
        fuel >= 1,
        target != SSB,
        forall|i: int|
            0 <= i < segs.len() ==> !((#[trigger] segs[i]).target == target && double_le(
                segs[i].start_sec_bits,
                t,
            ) && double_le(t, segs[i].end_sec_bits)),
        forall|i: int|
            0 <= i < segs.len() ==> !((#[trigger] segs[i]).target == target && segment_covers_by(
                segs[i],
                t,
                fallback,
            )),
    ensures
        spec_ssb_path(segs, target, t, fallback, fuel) == (
            Seq::<SegmentStep>::empty(),
            PathEnd::TargetNotFound(target),
        ),
{
    lemma_first_selected(segs, target, Some(SSB), t, CoverTest::Within);
    lemma_first_selected(segs, target, None, t, fallback);
    if let Some(k) = first_selected(segs, target, Some(SSB), t, CoverTest::Within) {
        assert(segment_selected(segs[k], target, Some(SSB), t, CoverTest::Within));
    }
    if let Some(k) = first_selected(segs, target, None, t, fallback) {
        assert(segment_selected(segs[k], target, None, t, fallback));
    }
}

} // verus!

verus! {

/// The segments of a summary record are its summaries, in order: there
/// are as many as the count stored at `off + 16`, summary `i` starts
/// `24 + i * 8 * (nd + ceil(ni / 2))` bytes into the record, and each
/// segment takes its start and end times from the first two doubles of its
/// summary and its target, center, type and first and last data addresses
/// from integers 0, 1, 3, 4 and 5, which follow the `nd` doubles.
pub proof fn law_record_segments_are_its_summaries(data: Seq<u8>, off: int, nd: usize, ni: usize, le: bool, i: int)
    requires
        0 <= i < record_count(data, off, le),
    ensures
        record_segments(data, off, nd, ni, le).len() == record_count(data, off, le),
        ({
            let base = off + 24 + i * (8 * nd + 8 * ((ni + 1) / 2));
            let ib = base + 8 * nd;
            let seg = record_segments(data, off, nd, ni, le)[i];
            &&& seg.start_sec_bits == spec_u64_at(data, base, le) as u64
            &&& seg.end_sec_bits == spec_u64_at(data, base + 8, le) as u64
            &&& seg.target == spec_i32_at(data, ib, le) as i32
            &&& seg.center == spec_i32_at(data, ib + 4, le) as i32
            &&& seg.spk_type == spec_i32_at(data, ib + 12, le) as i32
            &&& seg.start_idx == spec_i32_at(data, ib + 16, le) as usize
            &&& seg.end_idx == spec_i32_at(data, ib + 20, le) as usize
        }),
{
    reveal(record_segments);
    lemma_round_to_usize_nonnegative(spec_u64_at(data, off + 16, le) as u64);
    let sb = (nd + (ni + 1) / 2) * 8;
    assert(i * sb == i * (8 * nd + 8 * ((ni + 1) / 2))) by (nonlinear_arith)
        requires
            sb == (nd + (ni + 1) / 2) * 8,
    ;
}

/// The chain of summary records is read record by record, in the order of
/// the chain: the segments from record `rec` are those of that record
/// followed by those from the record it names next; record number 0 ends
/// the chain.
pub proof fn law_chain_is_read_in_order(data: Seq<u8>, rec: int, nd: usize, ni: usize, le: bool, fuel: nat)
    ensures
        rec == 0 ==> chain_segments(data, rec, nd, ni, le, fuel) == Seq::<BspSegment>::empty(),
        rec != 0 && fuel >= 1 ==> chain_segments(data, rec, nd, ni, le, fuel) == record_segments(
            data,
            (rec - 1) * 1024,
            nd,
            ni,
            le,
        ) + chain_segments(data, record_next(data, (rec - 1) * 1024, le), nd, ni, le, (fuel - 1) as nat),
        rec != 0 && fuel >= 1 && record_next(data, (rec - 1) * 1024, le) == 0 ==> chain_segments(
            data,
            rec,
            nd,
            ni,
            le,
            fuel,
        ) == record_segments(data, (rec - 1) * 1024, nd, ni, le),
{
    if rec != 0 && fuel >= 1 && record_next(data, (rec - 1) * 1024, le) == 0 {
        assert(chain_segments(data, 0, nd, ni, le, (fuel - 1) as nat) == Seq::<BspSegment>::empty());
        assert(record_segments(data, (rec - 1) * 1024, nd, ni, le) + Seq::<BspSegment>::empty()
            =~= record_segments(data, (rec - 1) * 1024, nd, ni, le));
    }
}

/// The coefficients of a record follow its midpoint and radius as
/// consecutive doubles, set after set: the first is the double at
/// `off + 16`, each next coefficient of a set is the double after the one
/// before, and each set starts `ncoeff` doubles after the one before.
pub proof fn law_coefficients_are_consecutive(data: Seq<u8>, off: int, ncoeff: int, k: int, i: int, le: bool)
    requires
        0 <= k,
        0 <= i,
    ensures
        spec_coefficient(data, off, ncoeff, 0, 0, le) == spec_u64_at(data, off + 16, le) as u64,
        spec_coefficient(data, off, ncoeff, k, i + 1, le) == spec_u64_at(
            data,
            off + 16 + (k * ncoeff + i) * 8 + 8,
            le,
        ) as u64,
        spec_coefficient(data, off, ncoeff, k + 1, i, le) == spec_u64_at(
            data,
            off + 16 + (k * ncoeff + i) * 8 + ncoeff * 8,
            le,
        ) as u64,
{
    assert((k + 1) * ncoeff + i == k * ncoeff + i + ncoeff) by (nonlinear_arith);
    assert(off + 16 + ((k + 1) * ncoeff + i) * 8 == off + 16 + (k * ncoeff + i) * 8 + ncoeff * 8)
        by (nonlinear_arith)
        requires
            (k + 1) * ncoeff + i == k * ncoeff + i + ncoeff,
    ;
}

/// A segment's data runs from DAF address `start_idx` to `end_idx` (eight
/// bytes per address, numbered from 1), and its trailer is the last four
/// doubles of it.
pub proof fn law_segment_data_addresses(seg: BspSegment)
    ensures
        data_start(seg) == (seg.start_idx - 1) * 8,
        meta_offset(seg) == (seg.end_idx - 3 - 1) * 8,
        meta_offset(seg) + 32 == seg.end_idx * 8,
{
}

} // verus!

verus! {

/// The file record: `ND`, `NI` and `FWARD` are the 32-bit integers at
/// bytes 8, 12 and 76 in the file's byte order; the file is big-endian
/// when `LOCFMT` (bytes 88..96) reads `BIG-IEEE` and little-endian when it
/// reads `LTL-IEEE`; a whole record whose `LOCIDW` reads `DAF/SPK ` is
/// accepted.
pub proof fn law_file_record_fields(data: Seq<u8>)
    ensures
        file_nd(data) == spec_i32_at(data, 8, file_is_le(data)) as usize,
        file_ni(data) == spec_i32_at(data, 12, file_is_le(data)) as usize,
        file_first_summary(data) == spec_i32_at(data, 76, file_is_le(data)) as usize,
        data.len() >= 96 && data.subrange(88, 96) == encode_utf8("BIG-IEEE"@) ==> !file_is_le(data),
        data.len() >= 96 && data.subrange(88, 96) == encode_utf8("LTL-IEEE"@) ==> file_is_le(data),
        data.len() >= RECORD_SIZE && data.subrange(0, 8) == encode_utf8("DAF/SPK "@)
            ==> file_record_accepted(data),
        data.len() < RECORD_SIZE ==> !file_record_accepted(data),
{
    reveal_strlit("LTL-IEEE");
    reveal_strlit("BIG-IEEE");
    reveal_strlit("DAF/SPK ");
    reveal_strlit("DAF/SPK");
    if data.len() >= 96 && data.subrange(88, 96) == encode_utf8("BIG-IEEE"@) {
        lemma_locfmt(data.subrange(88, 96), "BIG-IEEE"@);
        assert(trim("BIG-IEEE"@) == "BIG-IEEE"@);
    }
    if data.len() >= 96 && data.subrange(88, 96) == encode_utf8("LTL-IEEE"@) {
        lemma_locfmt(data.subrange(88, 96), "LTL-IEEE"@);
        assert(trim("LTL-IEEE"@) == "LTL-IEEE"@);
        assert("LTL-IEEE"@[0] != "BIG-IEEE"@[0]);
    }
    if data.len() >= RECORD_SIZE && data.subrange(0, 8) == encode_utf8("DAF/SPK "@) {
        lemma_locfmt(data.subrange(0, 8), "DAF/SPK "@);
        assert(file_locidw(data) == "DAF/SPK "@);
        assert("DAF/SPK "@.subrange(0, 7) =~= "DAF/SPK"@);
    }
}

} // verus!
