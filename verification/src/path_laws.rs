//! What a rounded, a recognised and a sharpened path run along.

use vstd::prelude::*;

use crate::geometry::Point3;
use crate::path::{
    arc_found, arc_reach, fitted, first_empty, meeting_point, over_gap, path_from, rounded_path,
    rounded_prefix, rounding, rounding_refusal, sharp_prefix, straight_segments, ArcProbe, ArcStep,
    CircleMeasure, CornerMeasure, FoundArc, PathApproxOptions, PathState, SharpTurn,
    SweepPathSegment, TangentMeasure,
};
use crate::scalar::Real;
use crate::sweep::SweepError;

verus! {

/// Where a segment starts.
pub open spec fn begins_at(segment: SweepPathSegment) -> Point3 {
    match segment {
        SweepPathSegment::Line { start, end } => start,
        SweepPathSegment::Arc { start, end, center, normal } => start,
    }
}

/// Where a segment ends.
pub open spec fn ends_at(segment: SweepPathSegment) -> Point3 {
    match segment {
        SweepPathSegment::Line { start, end } => end,
        SweepPathSegment::Arc { start, end, center, normal } => end,
    }
}

/// Whether a distance is something: more than 1e-9.
pub open spec fn something(distance: Real) -> bool {
    (Real { bits: 0x3e112e0be826d695 }).below(distance)
}

/// Whether a polyline bends at a waypoint: the cosine between its legs there is
/// not above 0.999999.
pub open spec fn bends(corner: CornerMeasure) -> bool {
    !(Real { bits: 0x3feffffde7210be9 }).below(corner.cos)
}

/// The waypoints at which a polyline bends, in turn.
pub open spec fn bent(corners: Seq<CornerMeasure>) -> Seq<CornerMeasure> {
    corners.filter(|c: CornerMeasure| bends(c))
}

/// The arcs of a path, in turn.
pub open spec fn arcs_of(path: Seq<SweepPathSegment>) -> Seq<SweepPathSegment> {
    path.filter(|s: SweepPathSegment| s is Arc)
}

/// Whether a segment is the arc at a waypoint: from where the arc starts to where
/// it ends, about its centre.
pub open spec fn is_arc_at(segment: SweepPathSegment, corner: CornerMeasure) -> bool {
    segment matches SweepPathSegment::Arc { start, end, center, normal } && start == corner.entry
        && end == corner.exit && center == corner.center && Some(normal) == corner.normal
}

/// Whether every segment of a path starts where the one before it ends, the first
/// at a point; only an arc with nothing before it may start elsewhere.
spec fn connected(path: Seq<SweepPathSegment>, first: Point3) -> bool {
    forall|i: int|
        0 <= i < path.len() ==> begins_at(#[trigger] path[i]) == (if i == 0 {
            first
        } else {
            ends_at(path[i - 1])
        })
}

proof fn lemma_filter_push<A>(s: Seq<A>, a: A, f: spec_fn(A) -> bool)
    ensures
        s.push(a).filter(f) == (if f(a) {
            s.filter(f).push(a)
        } else {
            s.filter(f)
        }),
{
    reveal(Seq::filter);
    assert(s.push(a).drop_last() =~= s);
}

proof fn lemma_prefix(first: Point3, corners: Seq<CornerMeasure>, k: int)
    requires
        0 <= k <= corners.len(),
        forall|i: int|
            0 <= i < corners.len() && bends(#[trigger] corners[i]) ==> corners[i].normal is Some,
    ensures
        ({
            let state = rounded_prefix(first, corners, k);
            let arcs = arcs_of(state.path);
            let turns = bent(corners.take(k));
            &&& state.current == (if state.path.len() == 0 {
                first
            } else {
                ends_at(state.path.last())
            })
            &&& state.path.len() > 0 ==> state.path.last() is Arc
            &&& arcs.len() == turns.len()
            &&& forall|i: int| 0 <= i < arcs.len() ==> is_arc_at(#[trigger] arcs[i], turns[i])
            &&& (forall|i: int|
                0 <= i < k && bends(#[trigger] corners[i]) ==> something(corners[i].gap))
                ==> connected(state.path, first) && state.path.len() == 2 * turns.len()
        }),
    decreases k,
{
    if k <= 0 {
        assert(corners.take(0) =~= Seq::empty());
        reveal(Seq::filter);
    } else {
        lemma_prefix(first, corners, k - 1);
        let was = rounded_prefix(first, corners, k - 1);
        let now = rounded_prefix(first, corners, k);
        let corner = corners[k - 1];
        let is_arc = |s: SweepPathSegment| s is Arc;
        let bending = |c: CornerMeasure| bends(c);
        assert(corners.take(k) =~= corners.take(k - 1).push(corner));
        lemma_filter_push(corners.take(k - 1), corner, bending);
        if bends(corner) {
            let lined = over_gap(was.path, was.current, corner.entry, corner.gap);
            let line = SweepPathSegment::Line { start: was.current, end: corner.entry };
            let arc = now.path.last();
            lemma_filter_push(was.path, line, is_arc);
            lemma_filter_push(lined, arc, is_arc);
            assert(arcs_of(lined) == arcs_of(was.path));
            assert(now.path == lined.push(arc));
            assert(corners[k - 1].normal is Some);
            assert(is_arc_at(arc, corner));
            if forall|i: int|
                0 <= i < k && bends(#[trigger] corners[i]) ==> something(corners[i].gap) {
                assert(something(corners[k - 1].gap));
                assert(lined == was.path.push(line));
                assert forall|i: int| 0 <= i < now.path.len() implies begins_at(
                    #[trigger] now.path[i],
                ) == (if i == 0 {
                    first
                } else {
                    ends_at(now.path[i - 1])
                }) by {
                    if i < was.path.len() {
                        assert(now.path[i] == was.path[i]);
                        if i > 0 {
                            assert(now.path[i - 1] == was.path[i - 1]);
                        }
                    } else if i == was.path.len() {
                        assert(now.path[i] == line);
                        if i > 0 {
                            assert(now.path[i - 1] == was.path.last());
                        }
                    } else {
                        assert(now.path[i] == arc);
                        assert(now.path[i - 1] == line);
                    }
                }
            }
        }
    }
}

/// A rounded path has one arc at each waypoint at which the polyline bends, in
/// turn, from where that arc is to start to where it is to end. Where there is
/// something of a leg left before each arc and after the last, every segment,
/// arcs among them, starts where the one before it ends, straight parts and arcs
/// take turns, and the path runs from the first waypoint to the last.
pub proof fn law_rounded_path_has_no_gaps(
    waypoints: Seq<Point3>,
    corner_radius: Real,
    gaps: Seq<Real>,
    corners: Seq<CornerMeasure>,
    tail: Real,
    path: Seq<SweepPathSegment>,
)
    requires
        waypoints.len() > 2,
        !corner_radius.at_most(Real { bits: 0x3e112e0be826d695 }),
        corners.len() + 2 == waypoints.len(),
        rounding(waypoints, corner_radius, gaps, corners, tail) == Ok::<
            Seq<SweepPathSegment>,
            SweepError,
        >(path),
    ensures
        ({
            let arcs = arcs_of(path);
            let turns = bent(corners);
            &&& arcs.len() == turns.len()
            &&& forall|i: int| 0 <= i < arcs.len() ==> is_arc_at(#[trigger] arcs[i], turns[i])
            &&& something(tail) && (forall|i: int|
                0 <= i < corners.len() && bends(#[trigger] corners[i]) ==> something(
                    corners[i].gap,
                )) ==> {
                &&& path.len() == 2 * turns.len() + 1
                &&& begins_at(path[0]) == waypoints[0]
                &&& ends_at(path.last()) == waypoints.last()
                &&& forall|i: int|
                    0 < i < path.len() ==> begins_at(#[trigger] path[i]) == ends_at(path[i - 1])
                &&& forall|i: int|
                    0 <= i < path.len() ==> ((#[trigger] path[i]) is Line <==> i % 2 == 0)
            }
        }),
{
    let n = corners.len() as int;
    lemma_no_refusal(corners, 1);
    assert forall|i: int| 0 <= i < corners.len() && bends(#[trigger] corners[i]) implies corners[
        i
    ].normal is Some by {}
    lemma_prefix(waypoints[0], corners, n);
    assert(corners.take(n) =~= corners);
    let state = rounded_prefix(waypoints[0], corners, n);
    let line = SweepPathSegment::Line { start: state.current, end: waypoints.last() };
    lemma_filter_push(state.path, line, |s: SweepPathSegment| s is Arc);
    if something(tail) && (forall|i: int|
        0 <= i < corners.len() && bends(#[trigger] corners[i]) ==> something(corners[i].gap)) {
        assert(path == state.path.push(line));
        lemma_alternates(waypoints[0], corners, n);
        assert forall|i: int| 0 < i < path.len() implies begins_at(#[trigger] path[i]) == ends_at(
            path[i - 1],
        ) by {
            if i < state.path.len() {
                assert(path[i] == state.path[i] && path[i - 1] == state.path[i - 1]);
            }
        }
        assert forall|i: int| 0 <= i < path.len() implies ((#[trigger] path[i]) is Line <==> i % 2
            == 0) by {
            if i < state.path.len() {
                assert(path[i] == state.path[i]);
            }
        }
        if state.path.len() > 0 {
            assert(path[0] == state.path[0]);
        }
    }
}

proof fn lemma_alternates(first: Point3, corners: Seq<CornerMeasure>, k: int)
    requires
        0 <= k <= corners.len(),
        forall|i: int|
            0 <= i < corners.len() && bends(#[trigger] corners[i]) ==> something(corners[i].gap),
    ensures
        ({
            let path = rounded_prefix(first, corners, k).path;
            &&& path.len() % 2 == 0
            &&& forall|i: int|
                0 <= i < path.len() ==> ((#[trigger] path[i]) is Line <==> i % 2 == 0)
        }),
    decreases k,
{
    if k > 0 {
        lemma_alternates(first, corners, k - 1);
        let was = rounded_prefix(first, corners, k - 1).path;
        let now = rounded_prefix(first, corners, k).path;
        if bends(corners[k - 1]) {
            assert(something(corners[k - 1].gap));
            assert(now.len() == was.len() + 2);
            assert forall|i: int| 0 <= i < now.len() implies ((#[trigger] now[i]) is Line <==> i
                % 2 == 0) by {
                if i < was.len() {
                    assert(now[i] == was[i]);
                }
            }
        }
    }
}

/// Whether a segment is the arc at a bent waypoint before which nothing is left.
pub open spec fn follows_nothing(corners: Seq<CornerMeasure>, segment: SweepPathSegment) -> bool {
    exists|k: int|
        0 <= k < corners.len() && bends(corners[k]) && !something(corners[k].gap) && is_arc_at(
            segment,
            #[trigger] corners[k],
        )
}

/// Whether a segment starts where the one before it ends, the first at a point,
/// but for an arc before which nothing is left.
pub open spec fn starts_right(
    path: Seq<SweepPathSegment>,
    first: Point3,
    corners: Seq<CornerMeasure>,
    i: int,
) -> bool {
    begins_at(path[i]) == (if i == 0 {
        first
    } else {
        ends_at(path[i - 1])
    }) || follows_nothing(corners, path[i])
}

proof fn lemma_starts_right(first: Point3, corners: Seq<CornerMeasure>, k: int, i: int)
    requires
        0 <= k <= corners.len(),
        forall|c: int|
            0 <= c < corners.len() && bends(#[trigger] corners[c]) ==> corners[c].normal is Some,
        0 <= i < rounded_prefix(first, corners, k).path.len(),
    ensures
        starts_right(rounded_prefix(first, corners, k).path, first, corners, i),
    decreases k,
{
    if k > 0 {
        let was = rounded_prefix(first, corners, k - 1);
        let now = rounded_prefix(first, corners, k);
        let corner = corners[k - 1];
        lemma_prefix(first, corners, k - 1);
        if i < was.path.len() {
            lemma_starts_right(first, corners, k - 1, i);
            assert(now.path[i] == was.path[i]);
            if i > 0 {
                assert(now.path[i - 1] == was.path[i - 1]);
            }
        } else if bends(corner) {
            assert(corners[k - 1].normal is Some);
            let arc = now.path.last();
            assert(is_arc_at(arc, corners[k - 1]));
            if something(corner.gap) {
                assert(now.path.len() == was.path.len() + 2);
                if i == was.path.len() {
                    if i > 0 {
                        assert(now.path[i - 1] == was.path.last());
                    }
                } else {
                    assert(now.path[i] == arc);
                    assert(ends_at(now.path[i - 1]) == corner.entry);
                }
            } else {
                assert(now.path[i] == arc);
                assert(follows_nothing(corners, now.path[i]));
            }
        }
    }
}

/// Segment by segment, whatever else is measured: a segment of a rounded path
/// starts where the one before it ends, the first at the first waypoint, unless
/// it is the arc at a waypoint before which nothing is left. The path ends at the
/// last waypoint, where there is something left after its last arc.
pub proof fn law_rounded_segments_start_right(
    waypoints: Seq<Point3>,
    corner_radius: Real,
    gaps: Seq<Real>,
    corners: Seq<CornerMeasure>,
    tail: Real,
    path: Seq<SweepPathSegment>,
    i: int,
)
    requires
        waypoints.len() > 2,
        !corner_radius.at_most(Real { bits: 0x3e112e0be826d695 }),
        corners.len() + 2 == waypoints.len(),
        rounding(waypoints, corner_radius, gaps, corners, tail) == Ok::<
            Seq<SweepPathSegment>,
            SweepError,
        >(path),
        0 <= i < path.len(),
    ensures
        starts_right(path, waypoints[0], corners, i),
        something(tail) ==> path.last() is Line && ends_at(path.last()) == waypoints.last(),
        !something(tail) ==> path.last() is Arc,
{
    let n = corners.len() as int;
    lemma_no_refusal(corners, 1);
    assert forall|c: int| 0 <= c < corners.len() && bends(#[trigger] corners[c]) implies corners[
        c
    ].normal is Some by {}
    let state = rounded_prefix(waypoints[0], corners, n);
    lemma_prefix(waypoints[0], corners, n);
    if i < state.path.len() {
        lemma_starts_right(waypoints[0], corners, n, i);
        assert(path[i] == state.path[i]);
        if i > 0 {
            assert(path[i - 1] == state.path[i - 1]);
        }
    } else if i > 0 {
        assert(path[i - 1] == state.path.last());
    }
}

// ── Refusals ────────────────────────────────────────────────────────────────

/// Whether a waypoint can be rounded: both legs have a direction, and where they
/// bend, both are longer than what the arc takes, and they span a plane.
pub open spec fn can_be_rounded(corner: CornerMeasure) -> bool {
    &&& corner.arrives
    &&& corner.leaves
    &&& bends(corner) ==> !corner.arriving_length.at_most(corner.trim)
        && !corner.leaving_length.at_most(corner.trim) && corner.normal is Some
}

/// Whether waypoint `i` is the first that cannot be rounded.
pub open spec fn first_unrounded(corners: Seq<CornerMeasure>, i: int) -> bool {
    &&& 1 <= i <= corners.len()
    &&& !can_be_rounded(corners[i - 1])
    &&& forall|j: int| 0 <= j < i - 1 ==> can_be_rounded(#[trigger] corners[j])
}

/// Whether a refusal fits a waypoint: a leg without direction is named by where
/// it starts, then a radius that is too large, then legs that span no plane.
pub open spec fn refusal_fits(error: SweepError, corner: CornerMeasure, i: int) -> bool {
    match error {
        SweepError::CoincidentWaypoints(w) => !corner.arrives && w == i - 1 || corner.arrives
            && !corner.leaves && w == i,
        SweepError::CornerRadiusTooLarge(w) => w == i && corner.arrives && corner.leaves && bends(
            corner,
        ) && (corner.arriving_length.at_most(corner.trim) || corner.leaving_length.at_most(
            corner.trim,
        )),
        SweepError::InvalidArc(w) => w == i && corner.arrives && corner.leaves && bends(corner)
            && !corner.arriving_length.at_most(corner.trim) && !corner.leaving_length.at_most(
            corner.trim,
        ) && corner.normal is None,
        _ => false,
    }
}

proof fn lemma_no_refusal(corners: Seq<CornerMeasure>, i: int)
    requires
        1 <= i <= corners.len() + 1,
        rounding_refusal(corners, i) is None,
    ensures
        forall|j: int| i - 1 <= j < corners.len() ==> can_be_rounded(#[trigger] corners[j]),
    decreases corners.len() + 1 - i,
{
    if i <= corners.len() {
        lemma_no_refusal(corners, i + 1);
    }
}

proof fn lemma_refusal(corners: Seq<CornerMeasure>, i: int)
    requires
        1 <= i <= corners.len() + 1,
        corners.len() < usize::MAX,
        forall|j: int| 0 <= j < i - 1 ==> can_be_rounded(#[trigger] corners[j]),
    ensures
        rounding_refusal(corners, i) matches Some(error) ==> exists|w: int| #[trigger]
            first_unrounded(corners, w) && refusal_fits(error, corners[w - 1], w),
        rounding_refusal(corners, i) is None ==> forall|j: int|
            0 <= j < corners.len() ==> can_be_rounded(#[trigger] corners[j]),
    decreases corners.len() + 1 - i,
{
    if i <= corners.len() {
        if can_be_rounded(corners[i - 1]) {
            lemma_refusal(corners, i + 1);
        } else {
            assert(first_unrounded(corners, i));
        }
    }
}

/// Whether leg `i` is the first without length.
pub open spec fn first_nothing(gaps: Seq<Real>, i: int) -> bool {
    &&& 0 <= i < gaps.len()
    &&& gaps[i].below(Real { bits: 0x3e112e0be826d695 })
    &&& forall|j: int|
        0 <= j < i ==> !(#[trigger] gaps[j]).below(Real { bits: 0x3e112e0be826d695 })
}

proof fn lemma_first_empty(gaps: Seq<Real>, k: int)
    requires
        0 <= k <= gaps.len(),
        forall|j: int|
            0 <= j < k ==> !(#[trigger] gaps[j]).below(Real { bits: 0x3e112e0be826d695 }),
    ensures
        match first_empty(gaps, k) {
            None => forall|j: int|
                0 <= j < gaps.len() ==> !(#[trigger] gaps[j]).below(
                    Real { bits: 0x3e112e0be826d695 },
                ),
            Some(i) => first_nothing(gaps, i),
        },
    decreases gaps.len() - k,
{
    if k < gaps.len() && !gaps[k].below(Real { bits: 0x3e112e0be826d695 }) {
        lemma_first_empty(gaps, k + 1);
    }
}

/// Rounding is refused for too few waypoints, then for a negative radius; where
/// there is something to round, for the first waypoint that cannot be, and
/// otherwise for the first leg without length.
pub proof fn law_roundings_are_refused(
    waypoints: Seq<Point3>,
    corner_radius: Real,
    gaps: Seq<Real>,
    corners: Seq<CornerMeasure>,
    tail: Real,
)
    requires
        waypoints.len() < usize::MAX,
        waypoints.len() >= 2 ==> gaps.len() + 1 == waypoints.len() && corners.len() + 2
            == waypoints.len(),
    ensures
        ({
            let plain = corner_radius.at_most(Real { bits: 0x3e112e0be826d695 }) || waypoints.len()
                == 2;
            match rounding(waypoints, corner_radius, gaps, corners, tail) {
                Ok(path) => {
                    &&& waypoints.len() >= 2
                    &&& !corner_radius.below(Real { bits: 0 })
                    &&& plain ==> forall|j: int|
                        0 <= j < gaps.len() ==> !(#[trigger] gaps[j]).below(
                            Real { bits: 0x3e112e0be826d695 },
                        )
                    &&& !plain ==> forall|j: int|
                        0 <= j < corners.len() ==> can_be_rounded(#[trigger] corners[j])
                },
                Err(SweepError::TooFewWaypoints) => waypoints.len() < 2,
                Err(SweepError::InvalidCornerRadius(r)) => waypoints.len() >= 2 && r
                    == corner_radius && corner_radius.below(Real { bits: 0 }),
                Err(error) => {
                    &&& waypoints.len() >= 2
                    &&& !corner_radius.below(Real { bits: 0 })
                    &&& plain ==> (error matches SweepError::CoincidentWaypoints(i)
                        && first_nothing(gaps, i as int))
                    &&& !plain ==> exists|w: int| #[trigger]
                        first_unrounded(corners, w) && refusal_fits(error, corners[w - 1], w)
                },
            }
        }),
{
    if waypoints.len() >= 2 {
        lemma_first_empty(gaps, 0);
        lemma_refusal(corners, 1);
    }
}

/// With nothing to round, a path has a straight segment from each waypoint to the
/// next.
pub proof fn law_unrounded_path_is_the_polyline(
    waypoints: Seq<Point3>,
    corner_radius: Real,
    gaps: Seq<Real>,
    corners: Seq<CornerMeasure>,
    tail: Real,
    path: Seq<SweepPathSegment>,
)
    requires
        corner_radius.at_most(Real { bits: 0x3e112e0be826d695 }) || waypoints.len() == 2,
        rounding(waypoints, corner_radius, gaps, corners, tail) == Ok::<
            Seq<SweepPathSegment>,
            SweepError,
        >(path),
    ensures
        path.len() + 1 == waypoints.len(),
        forall|i: int|
            0 <= i < path.len() ==> (#[trigger] path[i]) is Line && begins_at(path[i])
                == waypoints[i] && ends_at(path[i]) == waypoints[i + 1],
{
}

// ── Recognised arcs ─────────────────────────────────────────────────────────

/// Whether a sample carries an arc on: it is on the circle, to a tolerance, and
/// further round by more than 1e-9.
pub open spec fn further_round(step: ArcStep, tol: Real) -> bool {
    !tol.below(step.off) && !step.turn.at_most(Real { bits: 0x3e112e0be826d695 })
}

proof fn lemma_reach(steps: Seq<ArcStep>, tol: Real, j: int)
    requires
        0 <= j < steps.len(),
    ensures
        j <= arc_reach(steps, tol, j) < steps.len(),
        forall|i: int|
            j < i <= arc_reach(steps, tol, j) ==> further_round(#[trigger] steps[i], tol),
        arc_reach(steps, tol, j) + 1 < steps.len() ==> !further_round(
            steps[arc_reach(steps, tol, j) + 1],
            tol,
        ),
    decreases steps.len() - j,
{
    if j + 1 < steps.len() && further_round(steps[j + 1], tol) {
        lemma_reach(steps, tol, j + 1);
    }
}

/// Whether the steps of an arc carry it on to `last`, and no further.
pub open spec fn carried_to(steps: Seq<ArcStep>, tol: Real, last: int) -> bool {
    &&& 0 <= last < steps.len()
    &&& forall|i: int| 0 < i <= last ==> further_round(#[trigger] steps[i], tol)
    &&& last + 1 < steps.len() ==> !further_round(steps[last + 1], tol)
}

/// Whether three points have a circle: they are not on a line (1e-18), and it is
/// more than a point (1e-6).
pub open spec fn has_circle(measure: CircleMeasure) -> bool {
    &&& !measure.area_sq.below(Real { bits: 0x3c32725dd1d243ac })
    &&& !measure.radius.below(Real { bits: 0x3eb0c6f7a0b5ed8d })
    &&& measure.normal is Some
}

/// An arc that is found goes through as many samples as carry it on and no
/// further, has as many as it needs (at least three), and turns far enough; it is
/// about the centre of the circle through its first three samples. One is found
/// wherever there is such an arc.
pub proof fn law_found_arcs_fit(
    samples: int,
    start: int,
    probe: ArcProbe,
    options: PathApproxOptions,
    last: int,
)
    requires
        0 <= start,
        start + 2 < samples <= usize::MAX,
        probe.steps@.len() + start + 2 == samples,
        carried_to(probe.steps@, probe.radius_tol, last),
    ensures
        ({
            let found = arc_found(samples, start, probe, options);
            &&& found is Some <==> has_circle(probe.circle) && options.min_arc_points >= 3 && last
                + 3 >= options.min_arc_points && !probe.steps@[last].angle.below(
                options.min_arc_angle,
            )
            &&& found matches Some(arc) ==> {
                &&& arc.end == start + 2 + last
                &&& arc.center == probe.circle.center
                &&& Some(arc.normal) == probe.circle.normal
            }
        }),
{
    let steps = probe.steps@;
    lemma_reach(steps, probe.radius_tol, 0);
    let reach = arc_reach(steps, probe.radius_tol, 0);
    if reach < last {
        assert(further_round(steps[reach + 1], probe.radius_tol));
    } else if last < reach {
        assert(further_round(steps[last + 1], probe.radius_tol));
    }
}

/// The steps of an arc carry it on to some last one.
pub proof fn law_arcs_are_carried_somewhere(steps: Seq<ArcStep>, tol: Real)
    requires
        steps.len() > 0,
    ensures
        exists|last: int| carried_to(steps, tol, last),
{
    lemma_reach(steps, tol, 0);
    assert(carried_to(steps, tol, arc_reach(steps, tol, 0)));
}

/// A recognised path goes by the arcs that are found and by straight segments
/// between neighbouring samples; samples nearer than the tolerance to the next
/// are passed over. From a sample at which an arc is found it goes on where the
/// arc ends, and so no sample is left out.
pub proof fn law_recognised_path_goes_by_its_arcs(
    points: Seq<Point3>,
    gaps: Seq<Real>,
    arcs: Seq<Option<FoundArc>>,
    tol: Real,
    i: int,
)
    requires
        0 <= i < points.len() - 1,
    ensures
        ({
            let path = path_from(points, gaps, arcs, tol, i);
            &&& path_from(points, gaps, arcs, tol, points.len() - 1).len() == 0
            &&& gaps[i].below(tol) ==> path == path_from(points, gaps, arcs, tol, i + 1)
            &&& !gaps[i].below(tol) ==> path.len() > 0 && begins_at(path[0]) == points[i]
            &&& !gaps[i].below(tol) && arcs[i] is None ==> {
                &&& path[0] is Line
                &&& ends_at(path[0]) == points[i + 1]
                &&& path.skip(1) == path_from(points, gaps, arcs, tol, i + 1)
            }
            &&& !gaps[i].below(tol) && (arcs[i] matches Some(arc) && i < arc.end < points.len())
                ==> {
                let arc = arcs[i]->0;
                &&& path[0] matches SweepPathSegment::Arc { start, end, center, normal } && end
                    == points[arc.end as int] && center == arc.center && normal == arc.normal
                &&& path.skip(1) == path_from(points, gaps, arcs, tol, arc.end as int)
            }
        }),
{
    let path = path_from(points, gaps, arcs, tol, i);
    if !gaps[i].below(tol) {
        let next = match arcs[i] {
            Some(arc) if i < arc.end && arc.end < points.len() => arc.end as int,
            _ => i + 1,
        };
        assert(path.skip(1) =~= path_from(points, gaps, arcs, tol, next));
    }
}

/// Three points have a circle unless they are on a line (1e-18) or it is nearly a
/// point (1e-6).
pub proof fn law_circles_through_three_points(measure: CircleMeasure)
    ensures
        fitted(measure) is Some <==> has_circle(measure),
        fitted(measure) matches Some(fit) ==> fit.center == measure.center && fit.radius
            == measure.radius && Some(fit.normal) == measure.normal,
{
}

/// Tangents meet unless they are parallel (1e-9).
pub proof fn law_tangents_meet(measure: TangentMeasure)
    ensures
        measure.denominator.unsigned().below(Real { bits: 0x3e112e0be826d695 }) ==> meeting_point(
            measure,
        ) is None,
        !measure.denominator.unsigned().below(Real { bits: 0x3e112e0be826d695 }) ==> meeting_point(
            measure,
        ) == Some(measure.point),
{
}

// ── Sharp paths ─────────────────────────────────────────────────────────────

/// Where segment `k` of a recognised path leads when it is made sharp: an arc to
/// its corner, if it has one, and anything else to its end.
pub open spec fn leads_to(segment: SweepPathSegment, turn: SharpTurn) -> Point3 {
    if segment is Arc && turn.corner is Some {
        turn.corner->0
    } else {
        ends_at(segment)
    }
}

/// A path that is made sharp goes from the start of the recognised one to where
/// each of its segments leads, in turn: it stands there after each, a straight
/// segment that is added runs from where it stood, and nothing but the end of the
/// last straight segment changes, which moves to the corner if it is at the arc's
/// start (1e-7).
pub proof fn law_sharp_path_follows(
    analytic: Seq<SweepPathSegment>,
    turns: Seq<SharpTurn>,
    k: int,
)
    requires
        0 <= k < analytic.len(),
        turns.len() == analytic.len(),
    ensures
        ({
            let was = sharp_prefix(analytic, turns, k);
            let now = sharp_prefix(analytic, turns, k + 1);
            let goal = leads_to(analytic[k], turns[k]);
            let n = was.path.len() as int;
            let moves = analytic[k] is Arc && turns[k].corner is Some && n > 0 && was.path.last()
                is Line && turns[k].join.below(Real { bits: 0x3e7ad7f29abcaf48 });
            &&& sharp_prefix(analytic, turns, 0).path.len() == 0
            &&& sharp_prefix(analytic, turns, 0).current == begins_at(analytic[0])
            &&& now.current == goal
            &&& moves ==> {
                &&& now.path.len() == n
                &&& now.path.drop_last() == was.path.drop_last()
                &&& now.path.last() is Line
                &&& begins_at(now.path.last()) == begins_at(was.path.last())
                &&& ends_at(now.path.last()) == goal
            }
            &&& !moves && (Real { bits: 0x3e112e0be826d695 }).at_most(turns[k].reach) ==> {
                &&& now.path.len() == n + 1
                &&& now.path.drop_last() == was.path
                &&& now.path.last() is Line
                &&& begins_at(now.path.last()) == was.current
                &&& ends_at(now.path.last()) == goal
            }
            &&& !moves && !(Real { bits: 0x3e112e0be826d695 }).at_most(turns[k].reach) ==> now.path
                == was.path
        }),
{
    let was = sharp_prefix(analytic, turns, k);
    let now = sharp_prefix(analytic, turns, k + 1);
    if now.path.len() > was.path.len() {
        assert(now.path.drop_last() =~= was.path);
    } else if now.path.len() > 0 && now.path != was.path {
        assert(now.path.drop_last() =~= was.path.drop_last());
    }
}

} // verus!
