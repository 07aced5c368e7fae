//! What a sweep is made of: how its legs meet, and why it is refused.

use vstd::prelude::*;

use crate::clip_laws::is_tube;
use crate::entities::{ExtentView, FaceBoundary, FaceExtent, FaceGeom};
use crate::geometry::{Circle3, Plane3, Point3};
use crate::path::{sound_leg, SegmentMeasure};
use crate::scalar::Real;
use crate::solid::PlanView;
use crate::sweep::{
    bad_leg, coincidence, leg_plans, open_joint, path_refusal, polyline_refusal, sweep_plan, Joint,
    Leg, LegKind, Meeting, PlaneCut, SweepError,
};

verus! {

/// Whether a plane cuts a leg at a slant, so that the cut is an ellipse: the
/// cosine between its normal and the leg is neither above 0.999999 nor below
/// 1e-6.
pub open spec fn slanted(cut: Option<PlaneCut>) -> bool {
    cut is Some && !(Real { bits: 0x3feffffde7210be9 }).below((cut->0).cos) && !(cut->0).cos.below(
        Real { bits: 0x3eb0c6f7a0b5ed8d },
    ) && (cut->0).ellipse is Some
}

/// Whether legs are taken to run straight on at a joint of a path.
pub open spec fn straight_on(meeting: Meeting, joint: Joint) -> bool {
    meeting is Path && (Real { bits: 0x3feffffde7210be9 }).below(joint.cos)
}

/// Whether a leg ends at a joint as it should: in the ellipse in which the miter
/// plane cuts it, or in its profile circle where the plane is square to it.
pub open spec fn ends_right(
    meeting: Meeting,
    joint: Joint,
    cut: Option<PlaneCut>,
    circle: Circle3,
    boundary: FaceBoundary,
) -> bool {
    if slanted(cut) && !straight_on(meeting, joint) {
        boundary == FaceBoundary::Ellipse((cut->0).ellipse->0)
    } else {
        boundary == FaceBoundary::Circle(circle)
    }
}

/// Whether a joint gets a torus: corners are to be rounded, the legs bend by more
/// than 1e-4, and a torus fits.
pub open spec fn gets_torus(joint: Joint, fillet_corners: bool) -> bool {
    fillet_corners && (Real { bits: 0x3f1a36e2eb1c432d }).below(joint.bend) && joint.fillet is Some
}

/// How many of the first `k` joints get a torus.
pub open spec fn tori_before(joints: Seq<Joint>, fillet_corners: bool, k: int) -> int
    decreases k,
{
    if k <= 0 {
        0
    } else {
        tori_before(joints, fillet_corners, k - 1) + (if gets_torus(
            joints[k - 1],
            fillet_corners,
        ) {
            1int
        } else {
            0
        })
    }
}

/// Where the face of leg `k` stands: after the first disk, the legs before it and
/// the tori before it.
pub open spec fn leg_place(joints: Seq<Joint>, fillet_corners: bool, k: int) -> int {
    1 + k + tori_before(joints, fillet_corners, k)
}

proof fn lemma_plans_len(
    meeting: Meeting,
    legs: Seq<Leg>,
    joints: Seq<Joint>,
    fillet_corners: bool,
    k: int,
)
    requires
        joints.len() + 1 == legs.len(),
        0 <= k <= legs.len(),
    ensures
        leg_plans(meeting, legs, joints, fillet_corners, k).len() == k + tori_before(
            joints,
            fillet_corners,
            if k < legs.len() {
                k
            } else {
                k - 1
            },
        ),
        0 <= tori_before(joints, fillet_corners, k),
    decreases k,
{
    if k > 0 {
        lemma_plans_len(meeting, legs, joints, fillet_corners, k - 1);
    }
}

proof fn lemma_plans_prefix(
    meeting: Meeting,
    legs: Seq<Leg>,
    joints: Seq<Joint>,
    fillet_corners: bool,
    j: int,
    k: int,
)
    requires
        0 <= j <= k <= legs.len(),
    ensures
        leg_plans(meeting, legs, joints, fillet_corners, j).len() <= leg_plans(
            meeting,
            legs,
            joints,
            fillet_corners,
            k,
        ).len(),
        forall|i: int|
            0 <= i < leg_plans(meeting, legs, joints, fillet_corners, j).len()
                ==> #[trigger] leg_plans(meeting, legs, joints, fillet_corners, k)[i] == leg_plans(
                meeting,
                legs,
                joints,
                fillet_corners,
                j,
            )[i],
    decreases k - j,
{
    if j < k {
        lemma_plans_prefix(meeting, legs, joints, fillet_corners, j, k - 1);
    }
}

/// Each leg of a sweep is a face: a straight one a tube on its cylinder, as long
/// as it is, an arc a bend of its torus between its profiles. Legs stand in turn,
/// each after the torus of the joint before it, if that has one. At a joint a
/// straight leg ends, and the next one starts, in the ellipse in which the miter
/// plane cuts it; in its profile circle only at a free end, or where the plane is
/// square to it (or, on a path, the path runs straight on).
pub proof fn law_legs_meet_at_their_joints(
    meeting: Meeting,
    legs: Seq<Leg>,
    joints: Seq<Joint>,
    radius: Real,
    fillet_corners: bool,
    k: int,
)
    requires
        joints.len() + 1 == legs.len(),
        0 <= k < legs.len(),
    ensures
        ({
            let plans = sweep_plan(meeting, legs, joints, radius, fillet_corners);
            let place = leg_place(joints, fillet_corners, k);
            &&& 0 < place < plans.len() - 1
            &&& plans[place].normal is Same
            &&& legs[k].kind matches LegKind::Line { surface, length } ==> {
                &&& plans[place].geom == FaceGeom::Cylinder(surface)
                &&& plans[place].extent matches ExtentView::Plain(extent)
                    && extent matches FaceExtent::Cylinder { length: l, start, end } && {
                    &&& l == length
                    &&& k == 0 ==> start == FaceBoundary::Circle(legs[0].start_circle)
                    &&& k > 0 ==> ends_right(
                        meeting,
                        joints[k - 1],
                        joints[k - 1].leaving,
                        legs[k].start_circle,
                        start,
                    )
                    &&& k == legs.len() - 1 ==> end == FaceBoundary::Circle(legs[k].end_circle)
                    &&& k < legs.len() - 1 ==> ends_right(
                        meeting,
                        joints[k],
                        joints[k].arriving,
                        legs[k].end_circle,
                        end,
                    )
                }
            }
            &&& legs[k].kind matches LegKind::Arc { torus, arc_radius } ==> {
                &&& plans[place].geom == FaceGeom::Torus(torus)
                &&& plans[place].extent matches ExtentView::Plain(extent)
                    && extent matches FaceExtent::TorusFillet { start_circle, end_circle }
                    && start_circle == legs[k].start_circle && end_circle == legs[k].end_circle
            }
        }),
{
    let n = legs.len() as int;
    let plans = sweep_plan(meeting, legs, joints, radius, fillet_corners);
    let all = leg_plans(meeting, legs, joints, fillet_corners, n);
    let next = leg_plans(meeting, legs, joints, fillet_corners, k + 1);
    let was = leg_plans(meeting, legs, joints, fillet_corners, k);
    lemma_plans_len(meeting, legs, joints, fillet_corners, k);
    lemma_plans_len(meeting, legs, joints, fillet_corners, k + 1);
    lemma_plans_len(meeting, legs, joints, fillet_corners, n);
    lemma_plans_prefix(meeting, legs, joints, fillet_corners, k + 1, n);
    assert(next[was.len() as int] == crate::sweep::leg_plan(meeting, legs, joints, k));
    assert(all[was.len() as int] == next[was.len() as int]);
    assert(plans[1 + was.len() as int] == all[was.len() as int]);
}

/// A joint that gets a torus has it right after the leg that arrives, between the
/// circles where it meets the two legs.
pub proof fn law_joints_get_their_torus(
    meeting: Meeting,
    legs: Seq<Leg>,
    joints: Seq<Joint>,
    radius: Real,
    fillet_corners: bool,
    k: int,
)
    requires
        joints.len() + 1 == legs.len(),
        0 <= k < joints.len(),
        gets_torus(joints[k], fillet_corners),
    ensures
        ({
            let plans = sweep_plan(meeting, legs, joints, radius, fillet_corners);
            let place = leg_place(joints, fillet_corners, k) + 1;
            let fillet = joints[k].fillet->0;
            &&& 0 < place < plans.len() - 1
            &&& plans[place].geom == FaceGeom::Torus(fillet.torus)
            &&& plans[place].normal is Same
            &&& fillet.circles matches Some(circles) ==> plans[place].extent matches
                ExtentView::Plain(extent) && extent matches FaceExtent::TorusFillet {
                start_circle,
                end_circle,
            } && start_circle == circles.0 && end_circle == circles.1
        }),
{
    let n = legs.len() as int;
    let plans = sweep_plan(meeting, legs, joints, radius, fillet_corners);
    let all = leg_plans(meeting, legs, joints, fillet_corners, n);
    let next = leg_plans(meeting, legs, joints, fillet_corners, k + 1);
    let was = leg_plans(meeting, legs, joints, fillet_corners, k);
    lemma_plans_len(meeting, legs, joints, fillet_corners, k);
    lemma_plans_len(meeting, legs, joints, fillet_corners, k + 1);
    lemma_plans_len(meeting, legs, joints, fillet_corners, n);
    lemma_plans_prefix(meeting, legs, joints, fillet_corners, k + 1, n);
    let at = was.len() as int + 1;
    assert(all[at] == next[at]);
    assert(plans[1 + at] == all[at]);
}

/// Whether a plan is a disk that closes an end.
pub open spec fn closes_end(plan: PlanView, plane: Plane3, radius: Real) -> bool {
    &&& plan.geom == FaceGeom::Plane(plane)
    &&& plan.normal is Same
    &&& plan.extent == ExtentView::Plain(FaceExtent::Disk { radius })
}

/// A sweep is closed by a disk of the profile's radius at either end: across the
/// start of the first leg, and across the end of the last. Between them there is
/// one face for each leg and one for each joint that gets a torus, and no other.
pub proof fn law_sweep_is_closed_at_both_ends(
    meeting: Meeting,
    legs: Seq<Leg>,
    joints: Seq<Joint>,
    radius: Real,
    fillet_corners: bool,
)
    requires
        joints.len() + 1 == legs.len(),
    ensures
        ({
            let plans = sweep_plan(meeting, legs, joints, radius, fillet_corners);
            &&& plans.len() == 2 + legs.len() + tori_before(
                joints,
                fillet_corners,
                joints.len() as int,
            )
            &&& closes_end(plans[0], legs[0].back, radius)
            &&& closes_end(plans.last(), legs.last().front, radius)
        }),
{
    lemma_plans_len(meeting, legs, joints, fillet_corners, legs.len() as int);
}

/// Neighbouring legs of a polyline whose joint is cut at a slant share no less
/// than that joint: the one ends in the ellipse that the miter plane cuts from
/// it, and the other starts in the one that it cuts from that.
pub proof fn law_mitered_neighbours_meet(
    legs: Seq<Leg>,
    joints: Seq<Joint>,
    radius: Real,
    fillet_corners: bool,
    k: int,
)
    requires
        joints.len() + 1 == legs.len(),
        0 <= k < joints.len(),
        legs[k].kind is Line,
        legs[k + 1].kind is Line,
        slanted(joints[k].arriving),
        slanted(joints[k].leaving),
    ensures
        ({
            let plans = sweep_plan(Meeting::Miter, legs, joints, radius, fillet_corners);
            let one = plans[leg_place(joints, fillet_corners, k)];
            let next = plans[leg_place(joints, fillet_corners, k + 1)];
            &&& one.extent matches ExtentView::Plain(extent)
                && extent matches FaceExtent::Cylinder { end, .. } && end == FaceBoundary::Ellipse(
                (joints[k].arriving->0).ellipse->0,
            )
            &&& next.extent matches ExtentView::Plain(extent)
                && extent matches FaceExtent::Cylinder { start, .. } && start
                == FaceBoundary::Ellipse((joints[k].leaving->0).ellipse->0)
        }),
{
    law_legs_meet_at_their_joints(Meeting::Miter, legs, joints, radius, fillet_corners, k);
    law_legs_meet_at_their_joints(Meeting::Miter, legs, joints, radius, fillet_corners, k + 1);
}

// ── Refusals ────────────────────────────────────────────────────────────────

/// Whether leg `i` is the first that is missing.
pub open spec fn first_missing(legs: Seq<Option<Leg>>, i: int) -> bool {
    &&& 0 <= i < legs.len()
    &&& legs[i] is None
    &&& forall|j: int| 0 <= j < i ==> #[trigger] legs[j] is Some
}

proof fn lemma_coincidence(legs: Seq<Option<Leg>>, k: int)
    requires
        0 <= k <= legs.len(),
        legs.len() <= usize::MAX,
        forall|j: int| 0 <= j < k ==> #[trigger] legs[j] is Some,
    ensures
        match coincidence(legs, k) {
            None => forall|j: int| 0 <= j < legs.len() ==> #[trigger] legs[j] is Some,
            Some(error) => error matches SweepError::CoincidentWaypoints(i) && first_missing(
                legs,
                i as int,
            ),
        },
    decreases legs.len() - k,
{
    if k < legs.len() && legs[k] is Some {
        lemma_coincidence(legs, k + 1);
    }
}

/// A polyline is swept exactly if it has two waypoints, a positive radius and no
/// leg without length. Otherwise it is refused for the first of these that fails,
/// with the first leg that has none.
pub proof fn law_polylines_are_refused(
    waypoints: Seq<Point3>,
    legs: Seq<Option<Leg>>,
    radius: Real,
)
    requires
        waypoints.len() >= 2 ==> legs.len() + 1 == waypoints.len(),
        waypoints.len() <= usize::MAX,
    ensures
        match polyline_refusal(waypoints, legs, radius) {
            None => waypoints.len() >= 2 && !radius.at_most(Real { bits: 0 }) && forall|j: int|
                0 <= j < legs.len() ==> #[trigger] legs[j] is Some,
            Some(SweepError::TooFewWaypoints) => waypoints.len() < 2,
            Some(SweepError::InvalidRadius(r)) => waypoints.len() >= 2 && r == radius
                && radius.at_most(Real { bits: 0 }),
            Some(SweepError::CoincidentWaypoints(i)) => waypoints.len() >= 2 && !radius.at_most(
                Real { bits: 0 },
            ) && first_missing(legs, i as int),
            Some(_) => false,
        },
{
    if waypoints.len() >= 2 {
        lemma_coincidence(legs, 0);
    }
}

/// Whether a leg can be swept with a profile of a radius: it is there, and if it
/// is an arc, it is wider than the profile.
pub open spec fn can_be_swept(leg: Option<Leg>, radius: Real) -> bool {
    leg is Some && ((leg->0).kind matches LegKind::Arc { torus, arc_radius }
        ==> !arc_radius.at_most(radius))
}

/// Whether leg `i` is the first that cannot be swept.
pub open spec fn first_unswept(legs: Seq<Option<Leg>>, radius: Real, i: int) -> bool {
    &&& 0 <= i < legs.len()
    &&& !can_be_swept(legs[i], radius)
    &&& forall|j: int| 0 <= j < i ==> can_be_swept(#[trigger] legs[j], radius)
}

proof fn lemma_bad_leg(legs: Seq<Option<Leg>>, radius: Real, k: int)
    requires
        0 <= k <= legs.len(),
        legs.len() <= usize::MAX,
        forall|j: int| 0 <= j < k ==> can_be_swept(#[trigger] legs[j], radius),
    ensures
        match bad_leg(legs, radius, k) {
            None => forall|j: int| 0 <= j < legs.len() ==> can_be_swept(#[trigger] legs[j], radius),
            Some(SweepError::InvalidArc(i)) => first_unswept(legs, radius, i as int)
                && legs[i as int] is None,
            Some(SweepError::SelfIntersectingSweep(i)) => first_unswept(legs, radius, i as int)
                && legs[i as int] is Some,
            Some(_) => false,
        },
    decreases legs.len() - k,
{
    if k < legs.len() && can_be_swept(legs[k], radius) {
        lemma_bad_leg(legs, radius, k + 1);
    }
}

/// Whether joint `i` is the first whose legs are more than 1e-6 apart.
pub open spec fn first_open(joints: Seq<Joint>, i: int) -> bool {
    &&& 0 <= i < joints.len()
    &&& (Real { bits: 0x3eb0c6f7a0b5ed8d }).below(joints[i].gap)
    &&& forall|j: int|
        0 <= j < i ==> !(Real { bits: 0x3eb0c6f7a0b5ed8d }).below((#[trigger] joints[j]).gap)
}

proof fn lemma_open_joint(joints: Seq<Joint>, k: int)
    requires
        0 <= k <= joints.len(),
        joints.len() < usize::MAX,
        forall|j: int|
            0 <= j < k ==> !(Real { bits: 0x3eb0c6f7a0b5ed8d }).below((#[trigger] joints[j]).gap),
    ensures
        match open_joint(joints, k) {
            None => forall|j: int|
                0 <= j < joints.len() ==> !(Real { bits: 0x3eb0c6f7a0b5ed8d }).below(
                    (#[trigger] joints[j]).gap,
                ),
            Some(error) => error matches SweepError::DisconnectedSegments(i) && i > 0
                && first_open(joints, i - 1),
        },
    decreases joints.len() - k,
{
    if k < joints.len() && !(Real { bits: 0x3eb0c6f7a0b5ed8d }).below(joints[k].gap) {
        lemma_open_joint(joints, k + 1);
    }
}

/// A path is swept exactly if it has a segment, a positive radius, no segment
/// that cannot be swept and no gap between segments. Otherwise it is refused for
/// the first of these that fails, with the first segment at which it does.
pub proof fn law_paths_are_refused(legs: Seq<Option<Leg>>, joints: Seq<Joint>, radius: Real)
    requires
        legs.len() <= usize::MAX,
        joints.len() < usize::MAX,
    ensures
        ({
            let sound = forall|j: int|
                0 <= j < legs.len() ==> can_be_swept(#[trigger] legs[j], radius);
            match path_refusal(legs, joints, radius) {
                None => legs.len() > 0 && !radius.at_most(Real { bits: 0 }) && sound && forall|
                    j: int,
                |
                    0 <= j < joints.len() ==> !(Real { bits: 0x3eb0c6f7a0b5ed8d }).below(
                        (#[trigger] joints[j]).gap,
                    ),
                Some(SweepError::TooFewWaypoints) => legs.len() == 0,
                Some(SweepError::InvalidRadius(r)) => legs.len() > 0 && r == radius
                    && radius.at_most(Real { bits: 0 }),
                Some(SweepError::InvalidArc(i)) => legs.len() > 0 && !radius.at_most(
                    Real { bits: 0 },
                ) && first_unswept(legs, radius, i as int) && legs[i as int] is None,
                Some(SweepError::SelfIntersectingSweep(i)) => legs.len() > 0 && !radius.at_most(
                    Real { bits: 0 },
                ) && first_unswept(legs, radius, i as int) && legs[i as int] is Some,
                Some(SweepError::DisconnectedSegments(i)) => legs.len() > 0 && !radius.at_most(
                    Real { bits: 0 },
                ) && sound && i > 0 && first_open(joints, i - 1),
                Some(_) => false,
            }
        }),
{
    if legs.len() > 0 {
        lemma_bad_leg(legs, radius, 0);
        lemma_open_joint(joints, 0);
    }
}

/// An arc can be swept only if its start and its end are as far from its centre,
/// to a tolerance, and in its plane, and neither radius nor chord is nothing
/// (1e-9); a straight segment if it has a direction.
pub proof fn law_sound_segments(measure: SegmentMeasure)
    ensures
        measure matches SegmentMeasure::Line { leg } ==> sound_leg(measure) == leg,
        measure matches SegmentMeasure::Arc {
            start_radius,
            end_radius,
            chord,
            spread,
            tolerance,
            start_off,
            end_off,
            arc_leg,
        } ==> {
            let nothing = Real { bits: 0x3e112e0be826d695 };
            let fine = !start_radius.below(nothing) && !end_radius.below(nothing) && !chord.below(
                nothing,
            ) && !tolerance.below(spread) && !tolerance.below(start_off) && !tolerance.below(
                end_off,
            );
            &&& fine ==> sound_leg(measure) == arc_leg
            &&& !fine ==> sound_leg(measure) is None
        },
{
}

} // verus!
