//! Shaping the centre line of a sweep: recognising arcs in a sampled polyline,
//! undoing them, and rounding the corners of a sharp one.

use vstd::prelude::*;

use crate::arena::SLOT_LIMIT;
use crate::brep::BRep;
use crate::geometry::{Point3, UnitVec3};
use crate::ids::SolidId;
use crate::scalar::Real;
use crate::solid::{BuiltIds, built, name_view};
use crate::sweep::{
    Joint, Leg, Meeting, NO_LENGTH, PARALLEL, SAME_END, SweepError, SweepOptions, all_legs,
    measured, path_refusal, sweep_circle_along_path, sweep_plan,
};

verus! {

/// 1e-18: below this square, three points are on a line.
pub const NO_AREA: u64 = 0x3c32725dd1d243ac;

/// 1e-6: a circle of a smaller radius is none.
pub const NO_CIRCLE: u64 = 0x3eb0c6f7a0b5ed8d;

/// How arcs are recognised in a sampled polyline.
#[derive(Clone, Copy, Debug, PartialEq, Eq, Structural)]
pub struct PathApproxOptions {
    /// An arc has at least so many samples.
    pub min_arc_points: usize,
    /// An arc turns at least so far (radians).
    pub min_arc_angle: Real,
    /// How far samples may be off the arc, relative to its radius.
    pub radius_rel_tol: Real,
    /// How far samples may be off the arc in any case.
    pub radius_abs_tol: Real,
    /// Samples nearer than this to the one before are passed over.
    pub point_tol: Real,
}

impl Default for PathApproxOptions {
    fn default() -> (options: PathApproxOptions)
        ensures
            options.min_arc_points == 6,
            options.min_arc_angle.bits == 0x3fc999999999999a,
            options.radius_rel_tol.bits == 0x3f9eb851eb851eb8,
            options.radius_abs_tol.bits == 0x3f847ae147ae147b,
            options.point_tol.bits == 0x3e7ad7f29abcaf48,
    {
        PathApproxOptions {
            min_arc_points: 6,
            min_arc_angle: Real { bits: 0x3fc999999999999a },
            radius_rel_tol: Real { bits: 0x3f9eb851eb851eb8 },
            radius_abs_tol: Real { bits: 0x3f847ae147ae147b },
            point_tol: Real { bits: 0x3e7ad7f29abcaf48 },
        }
    }
}

/// One segment of a centre line.
#[derive(Clone, Copy, Debug, PartialEq, Eq, Structural)]
pub enum SweepPathSegment {
    /// A straight segment.
    Line {
        /// Where it starts.
        start: Point3,
        /// Where it ends.
        end: Point3,
    },
    /// A circular arc; it sets out along `normal × (start - center)`.
    Arc {
        /// Where it starts.
        start: Point3,
        /// Where it ends.
        end: Point3,
        /// The centre of its circle.
        center: Point3,
        /// The normal of its plane, which gives the direction of travel.
        normal: UnitVec3,
    },
}

impl SweepPathSegment {
    /// Where the segment starts.
    pub open spec fn first(self) -> Point3 {
        match self {
            SweepPathSegment::Line { start, end } => start,
            SweepPathSegment::Arc { start, end, center, normal } => start,
        }
    }

    /// Where the segment ends.
    pub open spec fn last(self) -> Point3 {
        match self {
            SweepPathSegment::Line { start, end } => end,
            SweepPathSegment::Arc { start, end, center, normal } => end,
        }
    }

    /// Start point of this segment.
    pub fn start(self) -> (p: Point3)
        ensures
            p == self.first(),
    {
        match self {
            SweepPathSegment::Line { start, .. } => start,
            SweepPathSegment::Arc { start, .. } => start,
        }
    }

    /// End point of this segment.
    pub fn end(self) -> (p: Point3)
        ensures
            p == self.last(),
    {
        match self {
            SweepPathSegment::Line { end, .. } => end,
            SweepPathSegment::Arc { end, .. } => end,
        }
    }
}

/// A segment, measured for a sweep.
#[derive(Clone, Copy, Debug)]
pub enum SegmentMeasure {
    /// A straight segment.
    Line {
        /// The leg along it, where it has a direction.
        leg: Option<Leg>,
    },
    /// An arc.
    Arc {
        /// From the centre to the start.
        start_radius: Real,
        /// From the centre to the end.
        end_radius: Real,
        /// From the start to the end.
        chord: Real,
        /// By how much the two radii differ.
        spread: Real,
        /// By how much they may.
        tolerance: Real,
        /// How far the start is off the plane.
        start_off: Real,
        /// How far the end is off the plane.
        end_off: Real,
        /// The leg along it, where its ends have directions.
        arc_leg: Option<Leg>,
    },
}

/// The leg of a segment; none if the segment is not sound: an arc needs two
/// radii and a chord that are something, radii that agree, and ends in the
/// plane.
pub open spec fn sound_leg(measure: SegmentMeasure) -> Option<Leg> {
    match measure {
        SegmentMeasure::Line { leg } => leg,
        SegmentMeasure::Arc {
            start_radius,
            end_radius,
            chord,
            spread,
            tolerance,
            start_off,
            end_off,
            arc_leg,
        } => {
            let none = Real { bits: NO_LENGTH };
            if start_radius.below(none) || end_radius.below(none) || chord.below(none)
                || tolerance.below(spread) || tolerance.below(start_off) || tolerance.below(
                end_off,
            ) {
                None
            } else {
                arc_leg
            }
        },
    }
}

/// The leg of a segment, if the segment is sound.
pub fn segment_info(measure: SegmentMeasure) -> (leg: Option<Leg>)
    ensures
        leg == sound_leg(measure),
{
    match measure {
        SegmentMeasure::Line { leg } => leg,
        SegmentMeasure::Arc {
            start_radius,
            end_radius,
            chord,
            spread,
            tolerance,
            start_off,
            end_off,
            arc_leg,
        } => {
            let none = Real { bits: NO_LENGTH };
            if start_radius.lt(none) || end_radius.lt(none) || chord.lt(none) {
                return None;
            }
            if spread.gt(tolerance) {
                return None;
            }
            if start_off.gt(tolerance) || end_off.gt(tolerance) {
                return None;
            }
            arc_leg
        },
    }
}

/// A segment of a path, and what was measured of it.
#[derive(Clone, Copy, Debug)]
pub struct PathStep {
    /// The segment.
    pub segment: SweepPathSegment,
    /// What was measured of it.
    pub measure: SegmentMeasure,
}

/// Whether a leg is a straight one from one point to another.
pub open spec fn straight_leg(leg: Leg, start: Point3, end: Point3) -> bool {
    &&& leg.kind is Line
    &&& leg.kind->surface.frame.origin == start
    &&& leg.back.frame.origin == start
    &&& leg.front.frame.origin == end
    &&& leg.start_circle.frame.origin == start
    &&& leg.end_circle.frame.origin == end
}

/// Whether a leg is an arc from one point to another about a third.
pub open spec fn arc_leg_about(leg: Leg, start: Point3, end: Point3, center: Point3) -> bool {
    &&& leg.kind is Arc
    &&& leg.kind->torus.frame.origin == center
    &&& leg.back.frame.origin == start
    &&& leg.front.frame.origin == end
    &&& leg.start_circle.frame.origin == start
    &&& leg.end_circle.frame.origin == end
}

/// Whether what was measured is of the segment: a leg of its kind, where it
/// runs.
pub open spec fn step_fits(step: PathStep) -> bool {
    match (step.segment, step.measure) {
        (SweepPathSegment::Line { start, end }, SegmentMeasure::Line { leg }) => leg is Some
            ==> straight_leg(leg->0, start, end),
        (
            SweepPathSegment::Arc { start, end, center, normal },
            SegmentMeasure::Arc { arc_leg, .. },
        ) => arc_leg is Some ==> arc_leg_about(arc_leg->0, start, end, center),
        _ => false,
    }
}

/// Whether what was measured is of the segments.
pub open spec fn steps_fit(steps: Seq<PathStep>) -> bool {
    forall|i: int| 0 <= i < steps.len() ==> step_fits(#[trigger] steps[i])
}

/// The leg of each step, where its segment is sound.
pub open spec fn step_legs(steps: Seq<PathStep>) -> Seq<Option<Leg>> {
    Seq::new(steps.len(), |i: int| sound_leg(steps[i].measure))
}

/// The leg of each step, where its segment is sound.
pub fn legs_of_steps(steps: &[PathStep]) -> (legs: Vec<Option<Leg>>)
    ensures
        legs@ == step_legs(steps@),
{
    let mut legs: Vec<Option<Leg>> = Vec::new();
    let mut i: usize = 0;
    while i < steps.len()
        invariant
            i <= steps@.len(),
            legs@ == step_legs(steps@).take(i as int),
        decreases steps@.len() - i,
    {
        legs.push(segment_info(steps[i].measure));
        i = i + 1;
        assert(legs@ =~= step_legs(steps@).take(i as int));
    }
    assert(legs@ =~= step_legs(steps@));
    legs
}

/// The first leg of a polyline from `k` on that has no length.
pub open spec fn first_empty(gaps: Seq<Real>, k: int) -> Option<int>
    decreases gaps.len() - k,
{
    if k < 0 || k >= gaps.len() {
        None
    } else if gaps[k].below(Real { bits: NO_LENGTH }) {
        Some(k)
    } else {
        first_empty(gaps, k + 1)
    }
}

/// The straight segments between waypoints.
pub open spec fn straight_segments(waypoints: Seq<Point3>) -> Seq<SweepPathSegment> {
    Seq::new(
        (waypoints.len() - 1) as nat,
        |i: int| SweepPathSegment::Line { start: waypoints[i], end: waypoints[i + 1] },
    )
}

/// The straight segments between waypoints; `gaps[i]` is the distance from
/// waypoint `i` to the next.
pub fn lines_from_polyline(waypoints: &[Point3], gaps: &[Real]) -> (result: Result<
    Vec<SweepPathSegment>,
    SweepError,
>)
    requires
        waypoints@.len() > 0,
        gaps@.len() + 1 == waypoints@.len(),
    ensures
        match result {
            Err(error) => first_empty(gaps@, 0) is Some && error == SweepError::CoincidentWaypoints(
                first_empty(gaps@, 0)->0 as usize,
            ),
            Ok(lines) => first_empty(gaps@, 0) is None && lines@ == straight_segments(waypoints@),
        },
{
    let mut out: Vec<SweepPathSegment> = Vec::new();
    let mut i: usize = 0;
    while i < gaps.len()
        invariant
            i <= gaps@.len(),
            gaps@.len() + 1 == waypoints@.len(),
            out@ == straight_segments(waypoints@).take(i as int),
            first_empty(gaps@, 0) == first_empty(gaps@, i as int),
        decreases gaps@.len() - i,
    {
        if gaps[i].lt(Real { bits: NO_LENGTH }) {
            return Err(SweepError::CoincidentWaypoints(i));
        }
        let last: usize = i + 1;
        out.push(SweepPathSegment::Line { start: waypoints[i], end: waypoints[last] });
        assert(out@ =~= straight_segments(waypoints@).take(i + 1));
        i = i + 1;
    }
    assert(out@ =~= straight_segments(waypoints@));
    Ok(out)
}

/// Add a straight segment of the given length, unless that is nothing.
pub fn push_line_if_nonzero(
    out: &mut Vec<SweepPathSegment>,
    start: Point3,
    end: Point3,
    length: Real,
)
    ensures
        final(out)@ == with_line(old(out)@, start, end, length),
{
    if length.ge(Real { bits: NO_LENGTH }) {
        out.push(SweepPathSegment::Line { start, end });
    }
}

/// A path with a straight segment of the given length added, unless that is
/// nothing.
pub open spec fn with_line(
    path: Seq<SweepPathSegment>,
    start: Point3,
    end: Point3,
    length: Real,
) -> Seq<SweepPathSegment> {
    if (Real { bits: NO_LENGTH }).at_most(length) {
        path.push(SweepPathSegment::Line { start, end })
    } else {
        path
    }
}

/// Whether a path ends with a straight segment that ends near a point, given
/// the distance.
pub open spec fn ends_straight_near(path: Seq<SweepPathSegment>, distance: Real) -> bool {
    path.len() > 0 && path.last() is Line && distance.below(Real { bits: SAME_END })
}

/// A path whose last straight segment ends elsewhere.
pub open spec fn with_last_end(path: Seq<SweepPathSegment>, end: Point3) -> Seq<SweepPathSegment> {
    path.drop_last().push(SweepPathSegment::Line { start: path.last().first(), end })
}

/// Let the last straight segment end at a new point if it ends, by the given
/// distance, where the caller stands; say whether it did.
pub fn extend_last_line_end(
    out: &mut Vec<SweepPathSegment>,
    distance: Real,
    new_end: Point3,
) -> (extended: bool)
    ensures
        extended == ends_straight_near(old(out)@, distance),
        final(out)@ == (if extended {
            with_last_end(old(out)@, new_end)
        } else {
            old(out)@
        }),
{
    let ghost before = out@;
    let n: usize = out.len();
    if n == 0 {
        return false;
    }
    match out[n - 1] {
        SweepPathSegment::Line { start, .. } => {
            if distance.lt(Real { bits: SAME_END }) {
                out.set(n - 1, SweepPathSegment::Line { start, end: new_end });
                assert(out@ =~= with_last_end(before, new_end));
                true
            } else {
                false
            }
        },
        SweepPathSegment::Arc { .. } => false,
    }
}

/// Two tangents, measured: where they meet, and the denominator that says
/// whether they do.
#[derive(Clone, Copy, Debug, PartialEq, Eq, Structural)]
pub struct TangentMeasure {
    /// The volume that the normal and the two directions span.
    pub denominator: Real,
    /// The point on the first tangent, meaningful for a denominator that is
    /// something.
    pub point: Point3,
}

/// Where two tangents meet; nowhere if they are parallel.
pub open spec fn meeting_point(measure: TangentMeasure) -> Option<Point3> {
    if measure.denominator.unsigned().below(Real { bits: NO_LENGTH }) {
        None
    } else {
        Some(measure.point)
    }
}

/// Where two tangents meet; nowhere if they are parallel.
pub fn tangent_intersection(measure: TangentMeasure) -> (point: Option<Point3>)
    ensures
        point == meeting_point(measure),
{
    if measure.denominator.abs().lt(Real { bits: NO_LENGTH }) {
        return None;
    }
    Some(measure.point)
}

/// A circle through three points, measured.
#[derive(Clone, Copy, Debug, PartialEq, Eq, Structural)]
pub struct CircleMeasure {
    /// The square of the doubled triangle's area.
    pub area_sq: Real,
    /// The radius.
    pub radius: Real,
    /// The centre.
    pub center: Point3,
    /// The normal of the plane, where it has a direction.
    pub normal: Option<UnitVec3>,
}

/// A circle.
#[derive(Clone, Copy, Debug, PartialEq, Eq, Structural)]
pub struct CircleFit {
    /// The centre.
    pub center: Point3,
    /// The normal of the plane.
    pub normal: UnitVec3,
    /// The radius.
    pub radius: Real,
}

/// The circle through three points, if they are not on a line and the circle
/// is not a point.
pub open spec fn fitted(measure: CircleMeasure) -> Option<CircleFit> {
    if measure.area_sq.below(Real { bits: NO_AREA }) || measure.radius.below(
        Real { bits: NO_CIRCLE },
    ) || measure.normal is None {
        None
    } else {
        Some(
            CircleFit {
                center: measure.center,
                normal: measure.normal->0,
                radius: measure.radius,
            },
        )
    }
}

/// The circle through three points.
pub fn circle_from_three_points(measure: CircleMeasure) -> (fit: Option<CircleFit>)
    ensures
        fit == fitted(measure),
{
    if measure.area_sq.lt(Real { bits: NO_AREA }) {
        return None;
    }
    if measure.radius.lt(Real { bits: NO_CIRCLE }) {
        return None;
    }
    match measure.normal {
        None => None,
        Some(normal) => Some(
            CircleFit { center: measure.center, normal, radius: measure.radius },
        ),
    }
}

/// A sample against the circle of an arc, measured.
#[derive(Clone, Copy, Debug, PartialEq, Eq, Structural)]
pub struct ArcStep {
    /// How far the sample is off the circle.
    pub off: Real,
    /// How far the arc turned from the sample before.
    pub turn: Real,
    /// The angle from the arc's first sample to this one.
    pub angle: Real,
}

/// The samples of an arc that may start somewhere, from its third on.
#[derive(Clone, Debug)]
pub struct ArcProbe {
    /// The circle through its first three samples.
    pub circle: CircleMeasure,
    /// How far samples may be off the circle.
    pub radius_tol: Real,
    /// The third sample and all after it.
    pub steps: Vec<ArcStep>,
}

/// An arc that was found.
#[derive(Clone, Copy, Debug, PartialEq, Eq, Structural)]
pub struct FoundArc {
    /// The sample at which it ends.
    pub end: usize,
    /// The centre of its circle.
    pub center: Point3,
    /// The normal of its plane.
    pub normal: UnitVec3,
}

/// Whether a sample carries the arc on.
pub open spec fn carries_on(step: ArcStep, tol: Real) -> bool {
    !tol.below(step.off) && !step.turn.at_most(Real { bits: NO_LENGTH })
}

/// The last step up to which the arc goes on without a break, if it goes on up
/// to `j`.
pub open spec fn arc_reach(steps: Seq<ArcStep>, tol: Real, j: int) -> int
    decreases steps.len() - j,
{
    if j < 0 || j + 1 >= steps.len() || !carries_on(steps[j + 1], tol) {
        j
    } else {
        arc_reach(steps, tol, j + 1)
    }
}

/// The arc from sample `start`, if there is one: through enough samples, each
/// on the circle and further on, and turning far enough.
pub open spec fn arc_found(
    samples: int,
    start: int,
    probe: ArcProbe,
    options: PathApproxOptions,
) -> Option<FoundArc> {
    if options.min_arc_points < 3 || start + options.min_arc_points - 1 >= samples {
        None
    } else {
        match fitted(probe.circle) {
            None => None,
            Some(fit) => {
                let j = arc_reach(probe.steps@, probe.radius_tol, 0);
                let end = start + 2 + j;
                if end < start + options.min_arc_points - 1 || probe.steps@[j].angle.below(
                    options.min_arc_angle,
                ) {
                    None
                } else {
                    Some(FoundArc { end: end as usize, center: fit.center, normal: fit.normal })
                }
            },
        }
    }
}

/// Whether a sample carries the arc on.
fn step_carries_on(step: ArcStep, tol: Real) -> (r: bool)
    ensures
        r == carries_on(step, tol),
{
    !step.off.gt(tol) && !step.turn.le(Real { bits: NO_LENGTH })
}

/// The arc that starts at a sample, if there is one.
pub fn detect_circular_arc(
    samples: usize,
    start: usize,
    probe: &ArcProbe,
    options: PathApproxOptions,
) -> (found: Option<FoundArc>)
    requires
        start < samples,
        start + 2 < samples ==> probe.steps@.len() + start + 2 == samples,
    ensures
        found == arc_found(samples as int, start as int, *probe, options),
        found is Some ==> start < found->0.end < samples,
{
    if options.min_arc_points < 3 || options.min_arc_points - 1 >= samples - start {
        return None;
    }
    let fit = match circle_from_three_points(probe.circle) {
        None => {
            return None;
        },
        Some(fit) => fit,
    };
    let m: usize = probe.steps.len();
    let mut j: usize = 0;
    while 1 < m - j && step_carries_on(probe.steps[j + 1], probe.radius_tol)
        invariant
            m == probe.steps@.len(),
            j < m,
            arc_reach(probe.steps@, probe.radius_tol, 0) == arc_reach(
                probe.steps@,
                probe.radius_tol,
                j as int,
            ),
        decreases probe.steps@.len() - j,
    {
        j = j + 1;
    }
    let end: usize = start + 2 + j;
    if 2 + j < options.min_arc_points - 1 {
        return None;
    }
    if probe.steps[j].angle.lt(options.min_arc_angle) {
        return None;
    }
    Some(FoundArc { end, center: fit.center, normal: fit.normal })
}

/// The path from sample `i` on.
pub open spec fn path_from(
    points: Seq<Point3>,
    gaps: Seq<Real>,
    arcs: Seq<Option<FoundArc>>,
    tol: Real,
    i: int,
) -> Seq<SweepPathSegment>
    decreases points.len() - i,
{
    if i < 0 || i + 1 >= points.len() {
        seq![]
    } else if gaps[i].below(tol) {
        path_from(points, gaps, arcs, tol, i + 1)
    } else {
        match arcs[i] {
            Some(arc) if i < arc.end && arc.end < points.len() => seq![
                SweepPathSegment::Arc {
                    start: points[i],
                    end: points[arc.end as int],
                    center: arc.center,
                    normal: arc.normal,
                },
            ] + path_from(points, gaps, arcs, tol, arc.end as int),
            _ => seq![SweepPathSegment::Line { start: points[i], end: points[i + 1] }]
                + path_from(points, gaps, arcs, tol, i + 1),
        }
    }
}

/// The arc that starts at each sample, if there is one.
pub open spec fn arcs_found(
    samples: int,
    probes: Seq<ArcProbe>,
    options: PathApproxOptions,
) -> Seq<Option<FoundArc>> {
    Seq::new(probes.len(), |i: int| arc_found(samples, i, probes[i], options))
}

/// Recognise the arcs of a sampled polyline. `gaps[i]` is the distance from
/// sample `i` to the next, and `probes[i]` measures the arc that may start
/// there.
pub fn analytic_path_from_polyline_samples(
    points: &[Point3],
    gaps: &[Real],
    probes: &[ArcProbe],
    options: PathApproxOptions,
) -> (path: Vec<SweepPathSegment>)
    requires
        points@.len() >= 2 ==> gaps@.len() + 1 == points@.len(),
        points@.len() >= 2 ==> probes@.len() + 1 == points@.len(),
        forall|i: int|
            0 <= i < points@.len() - 2 ==> (#[trigger] probes@[i]).steps@.len() + i + 2
                == points@.len(),
    ensures
        path@ == path_from(
            points@,
            gaps@,
            arcs_found(points@.len() as int, probes@, options),
            options.point_tol,
            0,
        ),
{
    let ghost arcs = arcs_found(points@.len() as int, probes@, options);
    let mut out: Vec<SweepPathSegment> = Vec::new();
    if points.len() < 2 {
        return out;
    }
    let n: usize = points.len() - 1;
    let mut i: usize = 0;
    let ghost whole = path_from(points@, gaps@, arcs, options.point_tol, 0);
    assert(out@ + whole =~= whole);
    while i < n
        invariant
            n + 1 == points@.len(),
            gaps@.len() == n,
            probes@.len() == n,
            arcs == arcs_found(points@.len() as int, probes@, options),
            forall|k: int|
                0 <= k < points@.len() - 2 ==> (#[trigger] probes@[k]).steps@.len() + k + 2
                    == points@.len(),
            i <= n,
            whole == out@ + path_from(points@, gaps@, arcs, options.point_tol, i as int),
        decreases n - i,
    {
        let ghost done = out@;
        if gaps[i].lt(options.point_tol) {
            i = i + 1;
        } else if let Some(arc) = detect_circular_arc(points.len(), i, &probes[i], options) {
            out.push(
                SweepPathSegment::Arc {
                    start: points[i],
                    end: points[arc.end],
                    center: arc.center,
                    normal: arc.normal,
                },
            );
            assert(arcs[i as int] == Some(arc));
            assert(whole =~= out@ + path_from(
                points@,
                gaps@,
                arcs,
                options.point_tol,
                arc.end as int,
            ));
            i = arc.end;
        } else {
            let last: usize = i + 1;
            out.push(SweepPathSegment::Line { start: points[i], end: points[last] });
            assert(arcs[i as int] is None);
            assert(whole =~= out@ + path_from(points@, gaps@, arcs, options.point_tol, i + 1));
            i = i + 1;
        }
    }
    assert(whole =~= out@);
    out
}

/// A recognised path of samples that are all apart runs from the first sample
/// to the last without a gap: each segment starts where the one before it ends.
pub proof fn law_recognised_path_connects(
    points: Seq<Point3>,
    gaps: Seq<Real>,
    arcs: Seq<Option<FoundArc>>,
    tol: Real,
    i: int,
)
    requires
        0 <= i < points.len() - 1,
        gaps.len() + 1 == points.len(),
        arcs.len() + 1 == points.len(),
        forall|k: int| 0 <= k < gaps.len() ==> !(#[trigger] gaps[k]).below(tol),
    ensures
        ({
            let path = path_from(points, gaps, arcs, tol, i);
            &&& path.len() > 0
            &&& path.first().first() == points[i]
            &&& path.last().last() == points.last()
            &&& forall|k: int|
                0 < k < path.len() ==> (#[trigger] path[k]).first() == path[k - 1].last()
        }),
    decreases points.len() - i,
{
    let path = path_from(points, gaps, arcs, tol, i);
    assert(!gaps[i].below(tol));
    let next = match arcs[i] {
        Some(arc) if i < arc.end && arc.end < points.len() => arc.end as int,
        _ => i + 1,
    };
    let rest = path_from(points, gaps, arcs, tol, next);
    assert(path =~= seq![path[0]] + rest);
    assert(path[0].last() == points[next]);
    if next < points.len() - 1 {
        law_recognised_path_connects(points, gaps, arcs, tol, next);
        assert forall|k: int| 0 < k < path.len() implies (#[trigger] path[k]).first() == path[k
            - 1].last() by {
            if k > 1 {
                assert(path[k] == rest[k - 1]);
                assert(path[k - 1] == rest[k - 2]);
            }
        }
        assert(path.last() == rest.last());
    } else {
        assert(rest =~= seq![]);
    }
}

/// How a segment of a recognised path is made sharp, measured.
#[derive(Clone, Copy, Debug, PartialEq, Eq, Structural)]
pub struct SharpTurn {
    /// For a sound arc, where its end tangents meet, if they do.
    pub corner: Option<Point3>,
    /// From the end of the last segment so far to the start of this one.
    pub join: Real,
    /// From where the path stands to the corner, or without one to the end.
    pub reach: Real,
}

/// A path under construction: what there is of it, and where it stands.
#[verifier::ext_equal]
pub struct PathState {
    pub path: Seq<SweepPathSegment>,
    pub current: Point3,
}

/// One more segment made sharp: a straight one is kept, an arc gives way to
/// its corner, and an arc without one to its chord.
pub open spec fn sharpened(
    state: PathState,
    segment: SweepPathSegment,
    turn: SharpTurn,
) -> PathState {
    match (segment, turn.corner) {
        (SweepPathSegment::Arc { start, end, center, normal }, Some(corner)) => PathState {
            path: if ends_straight_near(state.path, turn.join) {
                with_last_end(state.path, corner)
            } else {
                with_line(state.path, state.current, corner, turn.reach)
            },
            current: corner,
        },
        _ => PathState {
            path: with_line(state.path, state.current, segment.last(), turn.reach),
            current: segment.last(),
        },
    }
}

/// The first `k` segments made sharp.
pub open spec fn sharp_prefix(
    analytic: Seq<SweepPathSegment>,
    turns: Seq<SharpTurn>,
    k: int,
) -> PathState
    decreases k,
{
    if k <= 0 {
        PathState { path: seq![], current: analytic[0].first() }
    } else {
        sharpened(sharp_prefix(analytic, turns, k - 1), analytic[k - 1], turns[k - 1])
    }
}

/// A path that is being made sharp.
#[derive(Clone, Debug)]
pub struct SharpPath {
    /// What there is of it.
    pub path: Vec<SweepPathSegment>,
    /// Where it stands.
    pub current: Point3,
}

impl SharpPath {
    /// The path so far.
    pub open spec fn view(&self) -> PathState {
        PathState { path: self.path@, current: self.current }
    }

    /// A path that stands at a point.
    pub fn from_point(start: Point3) -> (sharp: SharpPath)
        ensures
            sharp@ == (PathState { path: seq![], current: start }),
    {
        SharpPath { path: Vec::new(), current: start }
    }

    /// Make one more segment sharp.
    pub fn follow(&mut self, segment: SweepPathSegment, turn: SharpTurn)
        ensures
            final(self)@ == sharpened(old(self)@, segment, turn),
    {
        if let SweepPathSegment::Arc { .. } = segment {
            if let Some(corner) = turn.corner {
                if !extend_last_line_end(&mut self.path, turn.join, corner) {
                    push_line_if_nonzero(&mut self.path, self.current, corner, turn.reach);
                }
                self.current = corner;
                return;
            }
        }
        let end = segment.end();
        push_line_if_nonzero(&mut self.path, self.current, end, turn.reach);
        self.current = end;
    }
}

/// Turn the arcs of a recognised path back into sharp corners.
pub fn sharp_path_from_polyline_samples(
    analytic: &[SweepPathSegment],
    turns: &[SharpTurn],
) -> (path: Vec<SweepPathSegment>)
    requires
        turns@.len() == analytic@.len(),
    ensures
        path@ == (if analytic@.len() == 0 {
            seq![]
        } else {
            sharp_prefix(analytic@, turns@, analytic@.len() as int).path
        }),
{
    if analytic.len() == 0 {
        return Vec::new();
    }
    let mut sharp = SharpPath::from_point(analytic[0].start());
    let mut k: usize = 0;
    while k < analytic.len()
        invariant
            k <= analytic@.len(),
            analytic@.len() > 0,
            turns@.len() == analytic@.len(),
            sharp@ == sharp_prefix(analytic@, turns@, k as int),
        decreases analytic@.len() - k,
    {
        sharp.follow(analytic[k], turns[k]);
        k = k + 1;
    }
    sharp.path
}

/// A path that was made sharp has straight segments only.
pub proof fn law_sharp_path_is_straight(
    analytic: Seq<SweepPathSegment>,
    turns: Seq<SharpTurn>,
    k: int,
    i: int,
)
    requires
        0 <= k <= analytic.len(),
        turns.len() == analytic.len(),
        0 <= i < sharp_prefix(analytic, turns, k).path.len(),
    ensures
        sharp_prefix(analytic, turns, k).path[i] is Line,
    decreases k,
{
    if k > 0 {
        let state = sharp_prefix(analytic, turns, k - 1);
        if i < state.path.len() {
            law_sharp_path_is_straight(analytic, turns, k - 1, i);
        }
    }
}

/// An inner waypoint of a sharp polyline, measured for rounding.
#[derive(Clone, Copy, Debug, PartialEq, Eq, Structural)]
pub struct CornerMeasure {
    /// Whether the leg that arrives has a direction.
    pub arrives: bool,
    /// Whether the leg that leaves has a direction.
    pub leaves: bool,
    /// The length of the leg that arrives.
    pub arriving_length: Real,
    /// The length of the leg that leaves.
    pub leaving_length: Real,
    /// The cosine between the two directions.
    pub cos: Real,
    /// How much of each leg the arc takes.
    pub trim: Real,
    /// The normal of the plane of the two legs, where it has a direction.
    pub normal: Option<UnitVec3>,
    /// Where the arc starts.
    pub entry: Point3,
    /// Where the arc ends.
    pub exit: Point3,
    /// The centre of the arc.
    pub center: Point3,
    /// From the end of the last arc, or the first waypoint, to `entry`.
    pub gap: Real,
}

/// Whether the polyline runs straight on at a waypoint.
pub open spec fn runs_straight(corner: CornerMeasure) -> bool {
    (Real { bits: PARALLEL }).below(corner.cos)
}

/// Whether the polyline runs straight on at a waypoint.
pub fn is_straight(corner: &CornerMeasure) -> (r: bool)
    ensures
        r == runs_straight(*corner),
{
    corner.cos.gt(Real { bits: PARALLEL })
}

/// Why waypoint `i` cannot be rounded, if it cannot.
pub open spec fn corner_refusal(corner: CornerMeasure, i: int) -> Option<SweepError> {
    if !corner.arrives {
        Some(SweepError::CoincidentWaypoints((i - 1) as usize))
    } else if !corner.leaves {
        Some(SweepError::CoincidentWaypoints(i as usize))
    } else if runs_straight(corner) {
        None
    } else if corner.arriving_length.at_most(corner.trim) || corner.leaving_length.at_most(
        corner.trim,
    ) {
        Some(SweepError::CornerRadiusTooLarge(i as usize))
    } else if corner.normal is None {
        Some(SweepError::InvalidArc(i as usize))
    } else {
        None
    }
}

/// The first refusal from waypoint `i` on; `corners[i - 1]` is waypoint `i`.
pub open spec fn rounding_refusal(corners: Seq<CornerMeasure>, i: int) -> Option<SweepError>
    decreases corners.len() + 1 - i,
{
    if i < 1 || i > corners.len() {
        None
    } else {
        match corner_refusal(corners[i - 1], i) {
            Some(error) => Some(error),
            None => rounding_refusal(corners, i + 1),
        }
    }
}

/// A path with a straight segment over a gap, if the gap is something.
pub open spec fn over_gap(
    path: Seq<SweepPathSegment>,
    start: Point3,
    end: Point3,
    gap: Real,
) -> Seq<SweepPathSegment> {
    if (Real { bits: NO_LENGTH }).below(gap) {
        path.push(SweepPathSegment::Line { start, end })
    } else {
        path
    }
}

/// One more waypoint rounded: nothing where the polyline runs straight on,
/// otherwise the straight part before the arc, and the arc.
pub open spec fn rounded(state: PathState, corner: CornerMeasure) -> PathState {
    if runs_straight(corner) {
        state
    } else {
        PathState {
            path: over_gap(state.path, state.current, corner.entry, corner.gap).push(
                SweepPathSegment::Arc {
                    start: corner.entry,
                    end: corner.exit,
                    center: corner.center,
                    normal: corner.normal->0,
                },
            ),
            current: corner.exit,
        }
    }
}

/// The first `k` inner waypoints rounded.
pub open spec fn rounded_prefix(first: Point3, corners: Seq<CornerMeasure>, k: int) -> PathState
    decreases k,
{
    if k <= 0 {
        PathState { path: seq![], current: first }
    } else {
        rounded(rounded_prefix(first, corners, k - 1), corners[k - 1])
    }
}

/// The rounded path: the rounded waypoints, and the straight rest.
pub open spec fn rounded_path(
    waypoints: Seq<Point3>,
    corners: Seq<CornerMeasure>,
    tail: Real,
) -> Seq<SweepPathSegment> {
    let state = rounded_prefix(waypoints[0], corners, corners.len() as int);
    over_gap(state.path, state.current, waypoints.last(), tail)
}

/// What rounding a polyline gives: too few waypoints or a negative radius are
/// refused; with nothing to round, the straight segments; otherwise the
/// rounded path, unless a waypoint refuses.
pub open spec fn rounding(
    waypoints: Seq<Point3>,
    corner_radius: Real,
    gaps: Seq<Real>,
    corners: Seq<CornerMeasure>,
    tail: Real,
) -> Result<Seq<SweepPathSegment>, SweepError> {
    if waypoints.len() < 2 {
        Err(SweepError::TooFewWaypoints)
    } else if corner_radius.below(Real { bits: 0 }) {
        Err(SweepError::InvalidCornerRadius(corner_radius))
    } else if corner_radius.at_most(Real { bits: NO_LENGTH }) || waypoints.len() == 2 {
        match first_empty(gaps, 0) {
            Some(i) => Err(SweepError::CoincidentWaypoints(i as usize)),
            None => Ok(straight_segments(waypoints)),
        }
    } else {
        match rounding_refusal(corners, 1) {
            Some(error) => Err(error),
            None => Ok(rounded_path(waypoints, corners, tail)),
        }
    }
}

/// Round the corners of a sharp polyline. `gaps[i]` is the distance from
/// waypoint `i` to the next, `corners[i]` is waypoint `i + 1`, and `tail` is the
/// distance from the end of the last arc, or the first waypoint, to the last
/// waypoint.
pub fn rounded_path_from_polyline(
    waypoints: &[Point3],
    corner_radius: Real,
    gaps: &[Real],
    corners: &[CornerMeasure],
    tail: Real,
) -> (result: Result<Vec<SweepPathSegment>, SweepError>)
    requires
        waypoints@.len() >= 2 ==> gaps@.len() + 1 == waypoints@.len(),
        waypoints@.len() >= 2 ==> corners@.len() + 2 == waypoints@.len(),
    ensures
        match result {
            Err(error) => rounding(waypoints@, corner_radius, gaps@, corners@, tail) == Err::<
                Seq<SweepPathSegment>,
                SweepError,
            >(error),
            Ok(path) => rounding(waypoints@, corner_radius, gaps@, corners@, tail) == Ok::<
                Seq<SweepPathSegment>,
                SweepError,
            >(path@),
        },
{
    if waypoints.len() < 2 {
        return Err(SweepError::TooFewWaypoints);
    }
    if corner_radius.lt(Real { bits: 0 }) {
        return Err(SweepError::InvalidCornerRadius(corner_radius));
    }
    if corner_radius.le(Real { bits: NO_LENGTH }) || waypoints.len() == 2 {
        return lines_from_polyline(waypoints, gaps);
    }
    let mut segments: Vec<SweepPathSegment> = Vec::new();
    let mut current = waypoints[0];
    let mut k: usize = 0;
    while k < corners.len()
        invariant
            k <= corners@.len(),
            waypoints@.len() > 2,
            corners@.len() + 2 == waypoints@.len(),
            !corner_radius.below(Real { bits: 0 }),
            !corner_radius.at_most(Real { bits: NO_LENGTH }),
            rounding_refusal(corners@, 1) == rounding_refusal(corners@, k + 1),
            (PathState { path: segments@, current }) == rounded_prefix(
                waypoints@[0],
                corners@,
                k as int,
            ),
        decreases corners@.len() - k,
    {
        let corner = corners[k];
        let i: usize = k + 1;
        if !corner.arrives {
            return Err(SweepError::CoincidentWaypoints(i - 1));
        }
        if !corner.leaves {
            return Err(SweepError::CoincidentWaypoints(i));
        }
        if !is_straight(&corner) {
            if corner.trim.ge(corner.arriving_length) || corner.trim.ge(corner.leaving_length) {
                return Err(SweepError::CornerRadiusTooLarge(i));
            }
            match corner.normal {
                None => {
                    return Err(SweepError::InvalidArc(i));
                },
                Some(normal) => {
                    if corner.gap.gt(Real { bits: NO_LENGTH }) {
                        segments.push(
                            SweepPathSegment::Line { start: current, end: corner.entry },
                        );
                    }
                    segments.push(
                        SweepPathSegment::Arc {
                            start: corner.entry,
                            end: corner.exit,
                            center: corner.center,
                            normal,
                        },
                    );
                    current = corner.exit;
                },
            }
        }
        k = k + 1;
    }
    let last = waypoints[waypoints.len() - 1];
    if tail.gt(Real { bits: NO_LENGTH }) {
        segments.push(SweepPathSegment::Line { start: current, end: last });
    }
    Ok(segments)
}

/// Why a rounded polyline is not swept, if it is not: its rounding is refused,
/// or the rounded path is.
pub open spec fn rounded_refusal(
    rounding: Result<Seq<SweepPathSegment>, SweepError>,
    legs: Seq<Option<Leg>>,
    joints: Seq<Joint>,
    profile_radius: Real,
) -> Option<SweepError> {
    match rounding {
        Err(error) => Some(error),
        Ok(path) => path_refusal(legs, joints, profile_radius),
    }
}

/// Round the corners of a sharp polyline, then sweep a circle along it; `steps`
/// are the segments of the rounded path with what was measured of them, and
/// `joints` measure where these meet.
pub fn sweep_circle_along_rounded_polyline(
    brep: &mut BRep,
    waypoints: &[Point3],
    profile_radius: Real,
    corner_radius: Real,
    gaps: &[Real],
    corners: &[CornerMeasure],
    tail: Real,
    steps: &[PathStep],
    joints: &[Joint],
    opts: &SweepOptions,
) -> (result: Result<SolidId, SweepError>)
    requires
        old(brep).wf(),
        waypoints@.len() >= 2 ==> gaps@.len() + 1 == waypoints@.len(),
        waypoints@.len() >= 2 ==> corners@.len() + 2 == waypoints@.len(),
        rounding(waypoints@, corner_radius, gaps@, corners@, tail) matches Ok(path) ==> {
            &&& steps@.len() == path.len()
            &&& forall|i: int| 0 <= i < path.len() ==> (#[trigger] steps@[i]).segment == path[i]
            &&& steps_fit(steps@)
            &&& steps@.len() > 0 && measured(step_legs(steps@)) ==> joints@.len() + 1
                == steps@.len()
        },
        rounded_refusal(
            rounding(waypoints@, corner_radius, gaps@, corners@, tail),
            step_legs(steps@),
            joints@,
            profile_radius,
        ) is None ==> {
            let plan = sweep_plan(
                Meeting::Path,
                all_legs(step_legs(steps@)),
                joints@,
                profile_radius,
                opts.fillet_corners,
            );
            &&& old(brep)@.faces.dom().len() + plan.len() <= SLOT_LIMIT
            &&& old(brep)@.loops.dom().len() + plan.len() <= SLOT_LIMIT
            &&& old(brep)@.shells.dom().len() < SLOT_LIMIT
            &&& old(brep)@.solids.dom().len() < SLOT_LIMIT
        },
    ensures
        final(brep).wf(),
        match result {
            Err(error) => rounded_refusal(
                rounding(waypoints@, corner_radius, gaps@, corners@, tail),
                step_legs(steps@),
                joints@,
                profile_radius,
            ) == Some(error) && final(brep)@ == old(brep)@,
            Ok(id) => rounded_refusal(
                rounding(waypoints@, corner_radius, gaps@, corners@, tail),
                step_legs(steps@),
                joints@,
                profile_radius,
            ) is None && exists|ids: BuiltIds|
                ids.solid == id && #[trigger] built(
                    old(brep)@,
                    final(brep)@,
                    sweep_plan(
                        Meeting::Path,
                        all_legs(step_legs(steps@)),
                        joints@,
                        profile_radius,
                        opts.fillet_corners,
                    ),
                    name_view(opts.name),
                    ids,
                ),
        },
{
    match rounded_path_from_polyline(waypoints, corner_radius, gaps, corners, tail) {
        Err(error) => Err(error),
        Ok(_) => sweep_circle_along_path(brep, steps, joints, profile_radius, opts),
    }
}

/// Every straight segment of a rounded path starts where the segment before it
/// ends, and the first one at the first waypoint.
pub proof fn law_rounded_path_connects(first: Point3, corners: Seq<CornerMeasure>, k: int, i: int)
    requires
        0 <= k <= corners.len(),
        0 <= i < rounded_prefix(first, corners, k).path.len(),
        rounded_prefix(first, corners, k).path[i] is Line,
    ensures
        rounded_prefix(first, corners, k).path[i].first() == (if i == 0 {
            first
        } else {
            rounded_prefix(first, corners, k).path[i - 1].last()
        }),
    decreases k,
{
    lemma_stands_at_end(first, corners, k);
    if k > 0 {
        lemma_stands_at_end(first, corners, k - 1);
        let state = rounded_prefix(first, corners, k - 1);
        if i < state.path.len() {
            law_rounded_path_connects(first, corners, k - 1, i);
        }
    }
}

proof fn lemma_stands_at_end(first: Point3, corners: Seq<CornerMeasure>, k: int)
    requires
        0 <= k <= corners.len(),
    ensures
        ({
            let state = rounded_prefix(first, corners, k);
            state.current == if state.path.len() == 0 {
                first
            } else {
                state.path.last().last()
            }
        }),
    decreases k,
{
    if k > 0 {
        lemma_stands_at_end(first, corners, k - 1);
    }
}

} // verus!
