//! Sweeping a circle along a path: one cylinder per straight leg, one torus
//! per arc, a fillet or a miter at each corner and a disk at each end.
//!
//! Lengths, directions and curves come measured; what is built from them, and
//! which inputs are refused, is decided here.

use vstd::prelude::*;

use crate::arena::SLOT_LIMIT;
use crate::brep::BRep;
use crate::entities::{ExtentView, FaceBoundary, FaceExtent, FaceGeom, FaceNormal};
use crate::geometry::{Circle3, CylSurf, Ellipse3, Plane3, Point3, TorusSurf};
use crate::ids::SolidId;
use crate::path::{PathStep, legs_of_steps, step_legs, steps_fit, straight_leg};
use crate::scalar::Real;
use crate::solid::{BuiltIds, FacePlan, PlanView, build_solid, built, lemma_views_push, name_view, plan_views};

verus! {

/// 1e-9: shorter than this, a length is nothing.
pub const NO_LENGTH: u64 = 0x3e112e0be826d695;

/// 1e-7: nearer than this, two ends are one.
pub const SAME_END: u64 = 0x3e7ad7f29abcaf48;

/// 1e-6: further apart than this, legs do not connect.
pub const CONNECTED: u64 = 0x3eb0c6f7a0b5ed8d;

/// 1e-4: legs that bend less than this get no fillet.
pub const NO_BEND: u64 = 0x3f1a36e2eb1c432d;

/// 0.999999: directions with a larger cosine count as parallel.
pub const PARALLEL: u64 = 0x3feffffde7210be9;

/// 1e-6: directions with a smaller cosine count as perpendicular.
pub const PERPENDICULAR: u64 = 0x3eb0c6f7a0b5ed8d;

/// What a sweep is to do.
#[derive(Clone, Debug)]
pub struct SweepOptions {
    /// Put a torus at each bend; otherwise the legs meet at a miter plane.
    pub fillet_corners: bool,
    /// A name for the solid.
    pub name: Option<String>,
}

impl Default for SweepOptions {
    fn default() -> (opts: SweepOptions)
        ensures
            opts.fillet_corners,
            opts.name is None,
    {
        SweepOptions { fillet_corners: true, name: None }
    }
}

/// Why a sweep was refused.
#[derive(Clone, Copy, Debug, PartialEq, Eq, Structural)]
pub enum SweepError {
    /// There are fewer than two waypoints, or no segment.
    TooFewWaypoints,
    /// The profile radius is not positive.
    InvalidRadius(Real),
    /// A waypoint coincides with the one after it.
    CoincidentWaypoints(usize),
    /// A segment is not valid geometry.
    InvalidArc(usize),
    /// A segment does not start where the one before it ends.
    DisconnectedSegments(usize),
    /// The corner radius is negative.
    InvalidCornerRadius(Real),
    /// The corner radius does not fit at a waypoint.
    CornerRadiusTooLarge(usize),
    /// An arc is not wider than the profile.
    SelfIntersectingSweep(usize),
}

/// What carries a leg.
#[derive(Clone, Copy, Debug)]
pub enum LegKind {
    /// A straight leg.
    Line {
        /// The cylinder about it.
        surface: CylSurf,
        /// Its length.
        length: Real,
    },
    /// A circular leg.
    Arc {
        /// The torus about it.
        torus: TorusSurf,
        /// The radius of the centre line.
        arc_radius: Real,
    },
}

/// One leg of a path, measured.
#[derive(Clone, Copy, Debug)]
pub struct Leg {
    /// What carries it.
    pub kind: LegKind,
    /// The plane across its start, looking back.
    pub back: Plane3,
    /// The plane across its end, looking ahead.
    pub front: Plane3,
    /// The profile at its start.
    pub start_circle: Circle3,
    /// The profile at its end.
    pub end_circle: Circle3,
}

/// A leg's cylinder cut by the miter plane of a joint, measured.
#[derive(Clone, Copy, Debug)]
pub struct PlaneCut {
    /// The absolute cosine between the plane's normal and the leg.
    pub cos: Real,
    /// The ellipse of the cut, where its long axis has a direction.
    pub ellipse: Option<Ellipse3>,
}

/// A torus that rounds a corner, measured.
#[derive(Clone, Copy, Debug)]
pub struct Fillet {
    /// The torus.
    pub torus: TorusSurf,
    /// Where it meets the two legs, where that has a direction.
    pub circles: Option<(Circle3, Circle3)>,
}

/// Where one leg meets the next, measured.
#[derive(Clone, Copy, Debug)]
pub struct Joint {
    /// The distance from the end of one to the start of the other.
    pub gap: Real,
    /// The cosine between their directions.
    pub cos: Real,
    /// One less the absolute cosine between their directions.
    pub bend: Real,
    /// The miter plane's cut of the leg that arrives, where there is a plane.
    pub arriving: Option<PlaneCut>,
    /// The miter plane's cut of the leg that leaves, where there is a plane.
    pub leaving: Option<PlaneCut>,
    /// The torus that fits the corner, if one does.
    pub fillet: Option<Fillet>,
}

/// The boundary that a plane cuts from a leg: an ellipse, or the profile
/// circle where the plane is square to the leg or nearly along it.
pub open spec fn plane_cut_boundary(circle: Circle3, cut: PlaneCut) -> FaceBoundary {
    if (Real { bits: PARALLEL }).below(cut.cos) || cut.cos.below(Real { bits: PERPENDICULAR })
        || cut.ellipse is None {
        FaceBoundary::Circle(circle)
    } else {
        FaceBoundary::Ellipse(cut.ellipse->0)
    }
}

/// The boundary at a miter plane; the profile circle if there is no plane.
pub open spec fn mitered(circle: Circle3, cut: Option<PlaneCut>) -> FaceBoundary {
    match cut {
        None => FaceBoundary::Circle(circle),
        Some(cut) => plane_cut_boundary(circle, cut),
    }
}

/// The boundary at a joint of a path; the profile circle if the path runs
/// straight on.
pub open spec fn joined(cos: Real, circle: Circle3, cut: Option<PlaneCut>) -> FaceBoundary {
    if (Real { bits: PARALLEL }).below(cos) {
        FaceBoundary::Circle(circle)
    } else {
        mitered(circle, cut)
    }
}

/// The boundary that a plane cuts from a leg.
pub fn boundary_for_plane_cut(circle: Circle3, cut: PlaneCut) -> (boundary: FaceBoundary)
    ensures
        boundary == plane_cut_boundary(circle, cut),
{
    if cut.cos.gt(Real { bits: PARALLEL }) || cut.cos.lt(Real { bits: PERPENDICULAR }) {
        return FaceBoundary::Circle(circle);
    }
    match cut.ellipse {
        None => FaceBoundary::Circle(circle),
        Some(ellipse) => FaceBoundary::Ellipse(ellipse),
    }
}

/// The boundary at a miter plane.
pub fn miter_boundary(circle: Circle3, cut: Option<PlaneCut>) -> (boundary: FaceBoundary)
    ensures
        boundary == mitered(circle, cut),
{
    match cut {
        None => FaceBoundary::Circle(circle),
        Some(cut) => boundary_for_plane_cut(circle, cut),
    }
}

/// The boundary at a joint of a path.
pub fn join_boundary(cos: Real, circle: Circle3, cut: Option<PlaneCut>) -> (boundary: FaceBoundary)
    ensures
        boundary == joined(cos, circle, cut),
{
    if cos.gt(Real { bits: PARALLEL }) {
        FaceBoundary::Circle(circle)
    } else {
        miter_boundary(circle, cut)
    }
}

/// How the legs of a sweep meet: always at the miter plane, or straight on
/// where they are parallel.
#[derive(Clone, Copy, Debug, PartialEq, Eq, Structural)]
pub enum Meeting {
    /// At the miter plane.
    Miter,
    /// At the miter plane, unless the path runs straight on.
    Path,
}

/// The boundary at which a leg starts or ends at a joint.
pub open spec fn boundary_at(
    meeting: Meeting,
    cos: Real,
    circle: Circle3,
    cut: Option<PlaneCut>,
) -> FaceBoundary {
    match meeting {
        Meeting::Miter => mitered(circle, cut),
        Meeting::Path => joined(cos, circle, cut),
    }
}

/// Where leg `k` starts: at the profile circle, or at its joint.
pub open spec fn leg_start(
    meeting: Meeting,
    legs: Seq<Leg>,
    joints: Seq<Joint>,
    k: int,
) -> FaceBoundary {
    if k == 0 {
        FaceBoundary::Circle(legs[k].start_circle)
    } else {
        boundary_at(meeting, joints[k - 1].cos, legs[k].start_circle, joints[k - 1].leaving)
    }
}

/// Where leg `k` ends: at its joint, or at the profile circle.
pub open spec fn leg_end(
    meeting: Meeting,
    legs: Seq<Leg>,
    joints: Seq<Joint>,
    k: int,
) -> FaceBoundary {
    if k + 1 == legs.len() {
        FaceBoundary::Circle(legs[k].end_circle)
    } else {
        boundary_at(meeting, joints[k].cos, legs[k].end_circle, joints[k].arriving)
    }
}

/// The face of leg `k`.
pub open spec fn leg_plan(
    meeting: Meeting,
    legs: Seq<Leg>,
    joints: Seq<Joint>,
    k: int,
) -> PlanView {
    match legs[k].kind {
        LegKind::Line { surface, length } => PlanView {
            geom: FaceGeom::Cylinder(surface),
            normal: FaceNormal::Same,
            extent: ExtentView::Plain(
                FaceExtent::Cylinder {
                    length,
                    start: leg_start(meeting, legs, joints, k),
                    end: leg_end(meeting, legs, joints, k),
                },
            ),
        },
        LegKind::Arc { torus, arc_radius } => PlanView {
            geom: FaceGeom::Torus(torus),
            normal: FaceNormal::Same,
            extent: ExtentView::Plain(
                FaceExtent::TorusFillet {
                    start_circle: legs[k].start_circle,
                    end_circle: legs[k].end_circle,
                },
            ),
        },
    }
}

/// The face that rounds a corner.
pub open spec fn fillet_plan(fillet: Fillet) -> PlanView {
    PlanView {
        geom: FaceGeom::Torus(fillet.torus),
        normal: FaceNormal::Same,
        extent: ExtentView::Plain(
            match fillet.circles {
                None => FaceExtent::Unknown,
                Some(circles) => FaceExtent::TorusFillet {
                    start_circle: circles.0,
                    end_circle: circles.1,
                },
            },
        ),
    }
}

/// The faces that a joint adds: a torus, if corners are to be rounded, the
/// legs bend and a torus fits.
pub open spec fn joint_plans(joint: Joint, fillet_corners: bool) -> Seq<PlanView> {
    if fillet_corners && (Real { bits: NO_BEND }).below(joint.bend) && joint.fillet is Some {
        seq![fillet_plan(joint.fillet->0)]
    } else {
        seq![]
    }
}

/// The disk that closes an end.
pub open spec fn cap_plan(plane: Plane3, radius: Real) -> PlanView {
    PlanView {
        geom: FaceGeom::Plane(plane),
        normal: FaceNormal::Same,
        extent: ExtentView::Plain(FaceExtent::Disk { radius }),
    }
}

/// The faces of the first `k` legs, each with the joint after it.
pub open spec fn leg_plans(
    meeting: Meeting,
    legs: Seq<Leg>,
    joints: Seq<Joint>,
    fillet_corners: bool,
    k: int,
) -> Seq<PlanView>
    decreases k,
{
    if k <= 0 {
        seq![]
    } else {
        leg_plans(meeting, legs, joints, fillet_corners, k - 1).push(
            leg_plan(meeting, legs, joints, k - 1),
        ) + (if k < legs.len() {
            joint_plans(joints[k - 1], fillet_corners)
        } else {
            seq![]
        })
    }
}

/// The faces of a sweep: the start cap, the legs and joints in turn, the end
/// cap.
pub open spec fn sweep_plan(
    meeting: Meeting,
    legs: Seq<Leg>,
    joints: Seq<Joint>,
    radius: Real,
    fillet_corners: bool,
) -> Seq<PlanView> {
    (seq![cap_plan(legs[0].back, radius)] + leg_plans(
        meeting,
        legs,
        joints,
        fillet_corners,
        legs.len() as int,
    )).push(cap_plan(legs.last().front, radius))
}

/// The legs, all of them measured.
pub open spec fn all_legs(legs: Seq<Option<Leg>>) -> Seq<Leg> {
    legs.map_values(|leg: Option<Leg>| leg->0)
}

/// Whether each leg could be measured.
pub open spec fn measured(legs: Seq<Option<Leg>>) -> bool {
    forall|k: int| 0 <= k < legs.len() ==> #[trigger] legs[k] is Some
}

/// The first leg from `k` on that coincides to a point.
pub open spec fn coincidence(legs: Seq<Option<Leg>>, k: int) -> Option<SweepError>
    decreases legs.len() - k,
{
    if k < 0 || k >= legs.len() {
        None
    } else if legs[k] is None {
        Some(SweepError::CoincidentWaypoints(k as usize))
    } else {
        coincidence(legs, k + 1)
    }
}

/// Why a polyline is refused, if it is: too few waypoints, then a bad radius,
/// then the first waypoint that coincides with the next.
pub open spec fn polyline_refusal(
    waypoints: Seq<Point3>,
    legs: Seq<Option<Leg>>,
    radius: Real,
) -> Option<SweepError> {
    if waypoints.len() < 2 {
        Some(SweepError::TooFewWaypoints)
    } else if radius.at_most(Real { bits: 0 }) {
        Some(SweepError::InvalidRadius(radius))
    } else {
        coincidence(legs, 0)
    }
}

/// The first leg from `k` on that is not valid or not wider than the profile.
pub open spec fn bad_leg(legs: Seq<Option<Leg>>, radius: Real, k: int) -> Option<SweepError>
    decreases legs.len() - k,
{
    if k < 0 || k >= legs.len() {
        None
    } else {
        match legs[k] {
            None => Some(SweepError::InvalidArc(k as usize)),
            Some(leg) => match leg.kind {
                LegKind::Arc { torus, arc_radius } if arc_radius.at_most(radius) => Some(
                    SweepError::SelfIntersectingSweep(k as usize),
                ),
                _ => bad_leg(legs, radius, k + 1),
            },
        }
    }
}

/// The first joint from `k` on whose legs do not connect.
pub open spec fn open_joint(joints: Seq<Joint>, k: int) -> Option<SweepError>
    decreases joints.len() - k,
{
    if k < 0 || k >= joints.len() {
        None
    } else if (Real { bits: CONNECTED }).below(joints[k].gap) {
        Some(SweepError::DisconnectedSegments((k + 1) as usize))
    } else {
        open_joint(joints, k + 1)
    }
}

/// Why a path is refused, if it is: no segment, then a bad radius, then the
/// first bad segment, then the first that does not connect.
pub open spec fn path_refusal(
    legs: Seq<Option<Leg>>,
    joints: Seq<Joint>,
    radius: Real,
) -> Option<SweepError> {
    if legs.len() == 0 {
        Some(SweepError::TooFewWaypoints)
    } else if radius.at_most(Real { bits: 0 }) {
        Some(SweepError::InvalidRadius(radius))
    } else {
        match bad_leg(legs, radius, 0) {
            Some(error) => Some(error),
            None => open_joint(joints, 0),
        }
    }
}

/// A copy of an optional name.
pub fn copy_name(name: &Option<String>) -> (copy: Option<String>)
    ensures
        name_view(copy) == name_view(*name),
{
    match name {
        None => None,
        Some(text) => Some(text.clone()),
    }
}

/// The face that closes an end.
fn build_end_cap(plane: Plane3, radius: Real) -> (plan: FacePlan)
    ensures
        plan@ == cap_plan(plane, radius),
{
    FacePlan {
        geom: FaceGeom::Plane(plane),
        normal: FaceNormal::Same,
        extent: FaceExtent::Disk { radius },
    }
}

/// The face that rounds a corner.
fn build_corner_connector(fillet: Fillet) -> (plan: FacePlan)
    ensures
        plan@ == fillet_plan(fillet),
{
    let extent = match fillet.circles {
        None => FaceExtent::Unknown,
        Some(circles) => FaceExtent::TorusFillet {
            start_circle: circles.0,
            end_circle: circles.1,
        },
    };
    FacePlan { geom: FaceGeom::Torus(fillet.torus), normal: FaceNormal::Same, extent }
}

/// The boundary at which a leg starts or ends at a joint.
fn meet(meeting: Meeting, cos: Real, circle: Circle3, cut: Option<PlaneCut>) -> (b: FaceBoundary)
    ensures
        b == boundary_at(meeting, cos, circle, cut),
{
    match meeting {
        Meeting::Miter => miter_boundary(circle, cut),
        Meeting::Path => join_boundary(cos, circle, cut),
    }
}

/// The face of leg `k`.
fn plan_leg(meeting: Meeting, legs: &Vec<Leg>, joints: &[Joint], k: usize) -> (plan: FacePlan)
    requires
        k < legs@.len(),
        joints@.len() + 1 == legs@.len(),
    ensures
        plan@ == leg_plan(meeting, legs@, joints@, k as int),
{
    let n: usize = legs.len();
    let leg = legs[k];
    match leg.kind {
        LegKind::Line { surface, length } => {
            let start = if k == 0 {
                FaceBoundary::Circle(leg.start_circle)
            } else {
                let joint = joints[k - 1];
                meet(meeting, joint.cos, leg.start_circle, joint.leaving)
            };
            let end = if k + 1 == n {
                FaceBoundary::Circle(leg.end_circle)
            } else {
                let joint = joints[k];
                meet(meeting, joint.cos, leg.end_circle, joint.arriving)
            };
            FacePlan {
                geom: FaceGeom::Cylinder(surface),
                normal: FaceNormal::Same,
                extent: FaceExtent::Cylinder { length, start, end },
            }
        },
        LegKind::Arc { torus, arc_radius: _ } => FacePlan {
            geom: FaceGeom::Torus(torus),
            normal: FaceNormal::Same,
            extent: FaceExtent::TorusFillet {
                start_circle: leg.start_circle,
                end_circle: leg.end_circle,
            },
        },
    }
}

/// The faces of a sweep.
fn plan_sweep(
    meeting: Meeting,
    legs: &Vec<Leg>,
    joints: &[Joint],
    radius: Real,
    fillet_corners: bool,
) -> (plans: Vec<FacePlan>)
    requires
        legs@.len() > 0,
        joints@.len() + 1 == legs@.len(),
    ensures
        plan_views(plans@) == sweep_plan(meeting, legs@, joints@, radius, fillet_corners),
{
    let mut plans: Vec<FacePlan> = Vec::new();
    plans.push(build_end_cap(legs[0].back, radius));
    let n: usize = legs.len();
    let mut k: usize = 0;
    assert(plan_views(plans@) =~= seq![cap_plan(legs@[0].back, radius)] + leg_plans(
        meeting,
        legs@,
        joints@,
        fillet_corners,
        0,
    ));
    while k < n
        invariant
            k <= n,
            n == legs@.len(),
            joints@.len() + 1 == n,
            plan_views(plans@) == seq![cap_plan(legs@[0].back, radius)] + leg_plans(
                meeting,
                legs@,
                joints@,
                fillet_corners,
                k as int,
            ),
        decreases n - k,
    {
        let ghost head = seq![cap_plan(legs@[0].back, radius)];
        let ghost done = leg_plans(meeting, legs@, joints@, fillet_corners, k as int);
        let ghost leg = leg_plan(meeting, legs@, joints@, k as int);
        let ghost so_far = plans@;
        let plan = plan_leg(meeting, legs, joints, k);
        plans.push(plan);
        proof {
            lemma_views_push(so_far, plan);
        }
        assert(plan_views(plans@) =~= head + done.push(leg));
        if k + 1 < n && fillet_corners && joints[k].bend.gt(Real { bits: NO_BEND }) {
            if let Some(fillet) = joints[k].fillet {
                let ghost with_leg = plans@;
                let connector = build_corner_connector(fillet);
                plans.push(connector);
                proof {
                    lemma_views_push(with_leg, connector);
                }
                assert(plan_views(plans@) =~= head + (done.push(leg) + joint_plans(
                    joints@[k as int],
                    fillet_corners,
                )));
            }
        }
        assert(done.push(leg) + seq![] =~= done.push(leg));
        assert(plan_views(plans@) =~= seq![cap_plan(legs@[0].back, radius)] + leg_plans(
            meeting,
            legs@,
            joints@,
            fillet_corners,
            k + 1,
        ));
        k = k + 1;
    }
    plans.push(build_end_cap(legs[n - 1].front, radius));
    assert(plan_views(plans@) =~= sweep_plan(meeting, legs@, joints@, radius, fillet_corners));
    plans
}

/// The legs of a polyline, or why it is refused.
pub fn check_polyline(
    waypoints: &[Point3],
    legs: &[Option<Leg>],
    radius: Real,
) -> (result: Result<Vec<Leg>, SweepError>)
    requires
        waypoints@.len() >= 2 ==> legs@.len() + 1 == waypoints@.len(),
    ensures
        match result {
            Err(error) => polyline_refusal(waypoints@, legs@, radius) == Some(error),
            Ok(run) => polyline_refusal(waypoints@, legs@, radius) is None && run@ == all_legs(
                legs@,
            ),
        },
{
    if waypoints.len() < 2 {
        return Err(SweepError::TooFewWaypoints);
    }
    if radius.le(Real { bits: 0 }) {
        return Err(SweepError::InvalidRadius(radius));
    }
    let mut run: Vec<Leg> = Vec::new();
    let mut i: usize = 0;
    while i < legs.len()
        invariant
            i <= legs@.len(),
            waypoints@.len() >= 2,
            !radius.at_most(Real { bits: 0 }),
            run@ == all_legs(legs@).take(i as int),
            coincidence(legs@, 0) == coincidence(legs@, i as int),
        decreases legs@.len() - i,
    {
        match legs[i] {
            None => {
                assert(coincidence(legs@, i as int) == Some(SweepError::CoincidentWaypoints(i)));
                return Err(SweepError::CoincidentWaypoints(i));
            },
            Some(leg) => {
                run.push(leg);
                assert(run@ =~= all_legs(legs@).take(i + 1));
            },
        }
        i = i + 1;
    }
    assert(run@ =~= all_legs(legs@));
    Ok(run)
}

/// The legs of a path, or why it is refused.
pub fn check_path(
    legs: &[Option<Leg>],
    joints: &[Joint],
    radius: Real,
) -> (result: Result<Vec<Leg>, SweepError>)
    requires
        legs@.len() > 0 && measured(legs@) ==> joints@.len() + 1 == legs@.len(),
    ensures
        match result {
            Err(error) => path_refusal(legs@, joints@, radius) == Some(error),
            Ok(run) => path_refusal(legs@, joints@, radius) is None && run@ == all_legs(legs@)
                && joints@.len() + 1 == legs@.len(),
        },
{
    if legs.len() == 0 {
        return Err(SweepError::TooFewWaypoints);
    }
    if radius.le(Real { bits: 0 }) {
        return Err(SweepError::InvalidRadius(radius));
    }
    let mut run: Vec<Leg> = Vec::new();
    let mut i: usize = 0;
    while i < legs.len()
        invariant
            i <= legs@.len(),
            legs@.len() > 0,
            !radius.at_most(Real { bits: 0 }),
            run@ == all_legs(legs@).take(i as int),
            forall|k: int| 0 <= k < i ==> #[trigger] legs@[k] is Some,
            bad_leg(legs@, radius, 0) == bad_leg(legs@, radius, i as int),
        decreases legs@.len() - i,
    {
        match legs[i] {
            None => {
                return Err(SweepError::InvalidArc(i));
            },
            Some(leg) => {
                if let LegKind::Arc { torus: _, arc_radius } = leg.kind {
                    if arc_radius.le(radius) {
                        return Err(SweepError::SelfIntersectingSweep(i));
                    }
                }
                run.push(leg);
                assert(run@ =~= all_legs(legs@).take(i + 1));
            },
        }
        i = i + 1;
    }
    assert(run@ =~= all_legs(legs@));
    assert(measured(legs@));
    let mut j: usize = 0;
    while j < joints.len()
        invariant
            j <= joints@.len(),
            legs@.len() > 0,
            !radius.at_most(Real { bits: 0 }),
            bad_leg(legs@, radius, 0) is None,
            joints@.len() + 1 == legs@.len(),
            open_joint(joints@, 0) == open_joint(joints@, j as int),
        decreases joints@.len() - j,
    {
        if joints[j].gap.gt(Real { bits: CONNECTED }) {
            return Err(SweepError::DisconnectedSegments(j + 1));
        }
        j = j + 1;
    }
    Ok(run)
}

/// Sweep a circle along a polyline whose legs and joints have been measured:
/// `legs[i]` runs from waypoint `i` to the next and is missing where the two
/// coincide.
pub fn sweep_circle_along_polyline(
    brep: &mut BRep,
    waypoints: &[Point3],
    legs: &[Option<Leg>],
    joints: &[Joint],
    radius: Real,
    opts: &SweepOptions,
) -> (result: Result<SolidId, SweepError>)
    requires
        old(brep).wf(),
        waypoints@.len() >= 2 ==> legs@.len() + 1 == waypoints@.len(),
        forall|i: int|
            0 <= i < waypoints@.len() - 1 && (#[trigger] legs@[i]) is Some ==> straight_leg(
                legs@[i]->0,
                waypoints@[i],
                waypoints@[i + 1],
            ),
        polyline_refusal(waypoints@, legs@, radius) is None ==> {
            let plan = sweep_plan(
                Meeting::Miter,
                all_legs(legs@),
                joints@,
                radius,
                opts.fillet_corners,
            );
            &&& joints@.len() + 1 == legs@.len()
            &&& old(brep)@.faces.dom().len() + plan.len() <= SLOT_LIMIT
            &&& old(brep)@.loops.dom().len() + plan.len() <= SLOT_LIMIT
            &&& old(brep)@.shells.dom().len() < SLOT_LIMIT
            &&& old(brep)@.solids.dom().len() < SLOT_LIMIT
        },
    ensures
        final(brep).wf(),
        match result {
            Err(error) => polyline_refusal(waypoints@, legs@, radius) == Some(error)
                && final(brep)@ == old(brep)@,
            Ok(id) => polyline_refusal(waypoints@, legs@, radius) is None && exists|ids: BuiltIds|
                ids.solid == id && #[trigger] built(
                    old(brep)@,
                    final(brep)@,
                    sweep_plan(
                        Meeting::Miter,
                        all_legs(legs@),
                        joints@,
                        radius,
                        opts.fillet_corners,
                    ),
                    name_view(opts.name),
                    ids,
                ),
        },
{
    match check_polyline(waypoints, legs, radius) {
        Err(error) => Err(error),
        Ok(run) => {
            let plans = plan_sweep(Meeting::Miter, &run, joints, radius, opts.fillet_corners);
            Ok(build_solid(brep, plans, copy_name(&opts.name)))
        },
    }
}

/// Sweep a circle along a path whose segments and joints have been measured.
pub fn sweep_circle_along_path(
    brep: &mut BRep,
    steps: &[PathStep],
    joints: &[Joint],
    radius: Real,
    opts: &SweepOptions,
) -> (result: Result<SolidId, SweepError>)
    requires
        old(brep).wf(),
        steps_fit(steps@),
        steps@.len() > 0 && measured(step_legs(steps@)) ==> joints@.len() + 1 == steps@.len(),
        path_refusal(step_legs(steps@), joints@, radius) is None ==> {
            let plan = sweep_plan(
                Meeting::Path,
                all_legs(step_legs(steps@)),
                joints@,
                radius,
                opts.fillet_corners,
            );
            &&& old(brep)@.faces.dom().len() + plan.len() <= SLOT_LIMIT
            &&& old(brep)@.loops.dom().len() + plan.len() <= SLOT_LIMIT
            &&& old(brep)@.shells.dom().len() < SLOT_LIMIT
            &&& old(brep)@.solids.dom().len() < SLOT_LIMIT
        },
    ensures
        final(brep).wf(),
        match result {
            Err(error) => path_refusal(step_legs(steps@), joints@, radius) == Some(error) && final(brep)@
                == old(brep)@,
            Ok(id) => path_refusal(step_legs(steps@), joints@, radius) is None && exists|ids: BuiltIds|
                ids.solid == id && #[trigger] built(
                    old(brep)@,
                    final(brep)@,
                    sweep_plan(
                        Meeting::Path,
                        all_legs(step_legs(steps@)),
                        joints@,
                        radius,
                        opts.fillet_corners,
                    ),
                    name_view(opts.name),
                    ids,
                ),
        },
{
    let legs = legs_of_steps(steps);
    match check_path(&legs, joints, radius) {
        Err(error) => Err(error),
        Ok(run) => {
            let plans = plan_sweep(Meeting::Path, &run, joints, radius, opts.fillet_corners);
            Ok(build_solid(brep, plans, copy_name(&opts.name)))
        },
    }
}

/// How many of the first `k` joints add a torus.
pub open spec fn fillet_count(joints: Seq<Joint>, fillet_corners: bool, k: int) -> int
    decreases k,
{
    if k <= 0 {
        0
    } else {
        fillet_count(joints, fillet_corners, k - 1) + joint_plans(
            joints[k - 1],
            fillet_corners,
        ).len()
    }
}

/// A sweep has one face for each leg, one for each joint that is rounded, and
/// two caps; the caps are its first and its last face.
pub proof fn law_sweep_faces(
    meeting: Meeting,
    legs: Seq<Leg>,
    joints: Seq<Joint>,
    radius: Real,
    fillet_corners: bool,
)
    requires
        legs.len() > 0,
        joints.len() + 1 == legs.len(),
    ensures
        ({
            let plan = sweep_plan(meeting, legs, joints, radius, fillet_corners);
            let fillets = fillet_count(joints, fillet_corners, joints.len() as int);
            &&& plan.len() == legs.len() + fillets + 2
            &&& !fillet_corners ==> fillets == 0
            &&& 0 <= fillets <= joints.len()
            &&& plan[0] == cap_plan(legs[0].back, radius)
            &&& plan.last() == cap_plan(legs.last().front, radius)
        }),
{
    lemma_leg_plan_count(meeting, legs, joints, fillet_corners, legs.len() as int);
}

proof fn lemma_leg_plan_count(
    meeting: Meeting,
    legs: Seq<Leg>,
    joints: Seq<Joint>,
    fillet_corners: bool,
    k: int,
)
    requires
        joints.len() + 1 == legs.len(),
        0 <= k <= legs.len(),
    ensures
        ({
            let inner = if k < legs.len() {
                k
            } else {
                k - 1
            };
            let fillets = fillet_count(joints, fillet_corners, inner);
            &&& leg_plans(meeting, legs, joints, fillet_corners, k).len() == k + fillets
            &&& !fillet_corners ==> fillets == 0
            &&& 0 <= fillets
            &&& k > 0 ==> fillets <= inner
        }),
    decreases k,
{
    if k > 0 {
        lemma_leg_plan_count(meeting, legs, joints, fillet_corners, k - 1);
    }
}

/// How many of some faces are on a cylinder.
pub open spec fn cylinder_count(plans: Seq<PlanView>) -> nat
    decreases plans.len(),
{
    if plans.len() == 0 {
        0
    } else {
        cylinder_count(plans.drop_last()) + (if plans.last().geom is Cylinder {
            1nat
        } else {
            0
        })
    }
}

proof fn lemma_cylinders_push(plans: Seq<PlanView>, plan: PlanView)
    ensures
        cylinder_count(plans.push(plan)) == cylinder_count(plans) + (if plan.geom is Cylinder {
            1nat
        } else {
            0
        }),
{
    assert(plans.push(plan).drop_last() =~= plans);
}

proof fn lemma_leg_cylinders(
    meeting: Meeting,
    legs: Seq<Leg>,
    joints: Seq<Joint>,
    fillet_corners: bool,
    cap: PlanView,
    k: int,
)
    requires
        0 <= k <= legs.len(),
        !(cap.geom is Cylinder),
        forall|i: int| 0 <= i < legs.len() ==> (#[trigger] legs[i]).kind is Line,
    ensures
        cylinder_count(seq![cap] + leg_plans(meeting, legs, joints, fillet_corners, k)) == k,
    decreases k,
{
    let now = leg_plans(meeting, legs, joints, fillet_corners, k);
    if k > 0 {
        let rest = leg_plans(meeting, legs, joints, fillet_corners, k - 1);
        let plan = leg_plan(meeting, legs, joints, k - 1);
        lemma_leg_cylinders(meeting, legs, joints, fillet_corners, cap, k - 1);
        assert(legs[k - 1].kind is Line);
        lemma_cylinders_push(seq![cap] + rest, plan);
        let with_leg = (seq![cap] + rest).push(plan);
        let more = if k < legs.len() {
            joint_plans(joints[k - 1], fillet_corners)
        } else {
            seq![]
        };
        if more.len() > 0 {
            lemma_cylinders_push(with_leg, more[0]);
            assert(seq![cap] + now =~= with_leg.push(more[0]));
        } else {
            assert(seq![cap] + now =~= with_leg);
        }
    } else {
        lemma_cylinders_push(seq![], cap);
        assert(seq![cap] + now =~= seq![].push(cap));
    }
}

/// A sweep along straight legs, as of a polyline, has one face on a cylinder for
/// each leg, and no others on one.
pub proof fn law_straight_sweep_cylinders(
    meeting: Meeting,
    legs: Seq<Leg>,
    joints: Seq<Joint>,
    radius: Real,
    fillet_corners: bool,
)
    requires
        legs.len() > 0,
        forall|i: int| 0 <= i < legs.len() ==> (#[trigger] legs[i]).kind is Line,
    ensures
        cylinder_count(sweep_plan(meeting, legs, joints, radius, fillet_corners)) == legs.len(),
{
    let n = legs.len() as int;
    let cap = cap_plan(legs[0].back, radius);
    lemma_leg_cylinders(meeting, legs, joints, fillet_corners, cap, n);
    lemma_cylinders_push(
        seq![cap] + leg_plans(meeting, legs, joints, fillet_corners, n),
        cap_plan(legs.last().front, radius),
    );
}

} // verus!
