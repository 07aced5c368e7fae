//! Cutting the solids of a model with a half-space.
//!
//! Each full cylinder of a solid is kept, dropped, cut along its axis or cut
//! across it; every other face is kept or dropped whole. Distances to the
//! cutting plane, and the shapes that a cut may leave, come measured.

use vstd::prelude::*;

use crate::arena::{EntityKey, SLOT_LIMIT, key_order};
use crate::brep::{BRep, Model};
use crate::entities::{ExtentView, Face, FaceBoundary, FaceExtent, FaceGeom, FaceNormal};
use crate::geometry::{Circle3, CylSurf, Plane3, Point3, UnitVec3};
use crate::ids::{FaceId, ShellId, SolidId};
use crate::scalar::{larger, max, min, smaller, Real};
use crate::solid::{
    BuiltIds, FacePlan, PlanView, build_solid, built, lemma_views_push, name_view, plan_views,
};
use crate::sweep::copy_name;

verus! {

/// 1e-6: this near to the plane is on it.
pub const ON_PLANE: u64 = 0x3eb0c6f7a0b5ed8d;

/// -1e-6.
pub const UNDER_PLANE: u64 = 0xbeb0c6f7a0b5ed8d;

/// 0.05: an axis whose cosine to the plane's normal is smaller runs along the
/// plane.
pub const ALONG_PLANE: u64 = 0x3fa999999999999a;

/// 1e-12: ends whose distances differ by less do not cross.
pub const NO_CROSSING: u64 = 0x3d719799812dea11;

/// 1e-15: a wave of a smaller amplitude is flat.
pub const FLAT_WAVE: u64 = 0x3cd203af9ee75616;

/// A full turn.
pub const TAU: u64 = 0x401921fb54442d18;

/// The largest finite number.
pub const LARGEST: u64 = 0x7fefffffffffffff;

/// The smallest finite number.
pub const SMALLEST: u64 = 0xffefffffffffffff;

/// What is left of a cylinder that is cut along its axis, measured.
#[derive(Clone, Copy, Debug)]
pub struct LateralShape {
    /// The cylinder and its length, where its axis has a direction.
    pub band: Option<(CylSurf, Real)>,
    /// Half the angle of the arc that is left.
    pub half_angle: Real,
    /// The plane's normal, into the half that is kept.
    pub up: UnitVec3,
    /// The faces that close the cut, where they have directions.
    pub caps: Option<LateralCaps>,
}

/// The faces that close a cut along the axis, measured.
#[derive(Clone, Copy, Debug)]
pub struct LateralCaps {
    /// The plane of the cut, looking into the half that is dropped.
    pub chord: Plane3,
    /// The corners of the cut, counter-clockwise.
    pub corners: (Point3, Point3, Point3, Point3),
    /// The plane across the start of the axis, looking out.
    pub start: Plane3,
    /// The plane across the end of the axis, looking out.
    pub end: Plane3,
}

/// What is left of a cylinder that is cut across its axis, measured.
#[derive(Clone, Copy, Debug)]
pub struct AxialShape {
    /// The cylinder and its length, where its axis has a direction.
    pub band: Option<(CylSurf, Real)>,
    /// The circle of the cut.
    pub circle: Circle3,
    /// The plane of the cut, looking out.
    pub cap: Plane3,
}

/// A full cylinder against the plane, measured.
#[derive(Clone, Copy, Debug)]
pub struct CylinderProbe {
    /// The cosine between the axis and the plane's normal.
    pub axis_cos: Real,
    /// The distance of the axis's start from the plane.
    pub start_distance: Real,
    /// The distance of the axis's end from the plane.
    pub end_distance: Real,
    /// By how much the second distance exceeds the first.
    pub climb: Real,
    /// The radius less the tolerance: from here on all of it is kept.
    pub kept_from: Real,
    /// The tolerance less the radius: up to here all of it is dropped.
    pub dropped_to: Real,
    /// What is left if it is cut along its axis.
    pub lateral: LateralShape,
    /// What is left if its end is cut off.
    pub without_end: AxialShape,
    /// What is left if its start is cut off.
    pub without_start: AxialShape,
}

/// A face against the plane, measured.
#[derive(Clone, Debug)]
pub struct FaceProbe {
    /// The least distance of the face's region, for an extent that has a
    /// region of its own but for a polygon.
    pub low: Real,
    /// The greatest distance of that region.
    pub high: Real,
    /// The distances of a polygon's corners.
    pub corners: Vec<Real>,
    /// The distance of the carrier's own point.
    pub carrier: Real,
    /// For a full cylinder: the cylinder.
    pub cylinder: Option<CylinderProbe>,
}

/// 1e-9: a fillet whose ends are nearer to each other runs all the way round.
pub const ENDS_MEET: u64 = 0x3e112e0be826d695;

/// Whether a fillet runs all the way round; `gap` is the distance between the
/// centres of its end circles.
pub fn runs_round(gap: Real) -> (round: bool)
    ensures
        round == gap.below(Real { bits: ENDS_MEET }),
{
    gap.lt(Real { bits: ENDS_MEET })
}

/// What becomes of a full cylinder.
#[derive(Clone, Copy, Debug, PartialEq, Eq, Structural)]
pub enum CylinderOutcome {
    /// All of it is kept.
    EntirelyKept,
    /// All of it is dropped.
    EntirelyDiscarded,
    /// It is cut along its axis.
    LateralCut,
    /// Its end is cut off.
    EndCut,
    /// Its start is cut off.
    StartCut,
}

/// What becomes of a full cylinder: one along the plane goes by the distance
/// of its axis and its radius, any other by the distances of its ends.
pub open spec fn cylinder_outcome(probe: CylinderProbe) -> CylinderOutcome {
    let start_kept = (Real { bits: UNDER_PLANE }).at_most(probe.start_distance);
    let end_kept = (Real { bits: UNDER_PLANE }).at_most(probe.end_distance);
    if probe.axis_cos.unsigned().below(Real { bits: ALONG_PLANE }) {
        if probe.kept_from.at_most(probe.start_distance) {
            CylinderOutcome::EntirelyKept
        } else if probe.start_distance.at_most(probe.dropped_to) {
            CylinderOutcome::EntirelyDiscarded
        } else {
            CylinderOutcome::LateralCut
        }
    } else if start_kept && end_kept {
        CylinderOutcome::EntirelyKept
    } else if !start_kept && !end_kept {
        CylinderOutcome::EntirelyDiscarded
    } else if probe.climb.unsigned().below(Real { bits: NO_CROSSING }) {
        CylinderOutcome::EntirelyKept
    } else if start_kept {
        CylinderOutcome::EndCut
    } else {
        CylinderOutcome::StartCut
    }
}

/// What becomes of a full cylinder.
pub fn classify_cylinder(probe: &CylinderProbe) -> (outcome: CylinderOutcome)
    ensures
        outcome == cylinder_outcome(*probe),
{
    if probe.axis_cos.abs().lt(Real { bits: ALONG_PLANE }) {
        if probe.start_distance.ge(probe.kept_from) {
            return CylinderOutcome::EntirelyKept;
        }
        if probe.start_distance.le(probe.dropped_to) {
            return CylinderOutcome::EntirelyDiscarded;
        }
        return CylinderOutcome::LateralCut;
    }
    let start_kept = probe.start_distance.ge(Real { bits: UNDER_PLANE });
    let end_kept = probe.end_distance.ge(Real { bits: UNDER_PLANE });
    if start_kept && end_kept {
        return CylinderOutcome::EntirelyKept;
    }
    if !start_kept && !end_kept {
        return CylinderOutcome::EntirelyDiscarded;
    }
    if probe.climb.abs().lt(Real { bits: NO_CROSSING }) {
        return CylinderOutcome::EntirelyKept;
    }
    if start_kept {
        CylinderOutcome::EndCut
    } else {
        CylinderOutcome::StartCut
    }
}

/// A wave `a cos t + b sin t` over an interval, measured.
#[derive(Clone, Copy, Debug, PartialEq, Eq, Structural)]
pub struct WaveMeasure {
    /// The amplitude.
    pub amplitude: Real,
    /// The length of the interval.
    pub span: Real,
    /// The value at its lower end.
    pub at_low: Real,
    /// The value at its upper end.
    pub at_high: Real,
    /// The upper end.
    pub high: Real,
    /// The first crest from the lower end on.
    pub crest: Real,
    /// The first trough from the lower end on.
    pub trough: Real,
}

/// The least and greatest value of a wave over an interval: those at its ends,
/// and the amplitude where a crest or a trough falls inside.
pub open spec fn wave_range(wave: WaveMeasure) -> (Real, Real) {
    let bottom = wave.amplitude.negated();
    if wave.amplitude.below(Real { bits: FLAT_WAVE }) {
        (Real { bits: 0 }, Real { bits: 0 })
    } else if (Real { bits: TAU }).at_most(wave.span) {
        (bottom, wave.amplitude)
    } else {
        let low = smaller(wave.at_low, wave.at_high);
        let high = larger(wave.at_low, wave.at_high);
        (
            if wave.trough.at_most(wave.high) {
                smaller(low, bottom)
            } else {
                low
            },
            if wave.crest.at_most(wave.high) {
                larger(high, wave.amplitude)
            } else {
                high
            },
        )
    }
}

/// The least and greatest value of a wave over an interval.
pub fn harmonic_range(wave: WaveMeasure) -> (range: (Real, Real))
    ensures
        range == wave_range(wave),
{
    if wave.amplitude.lt(Real { bits: FLAT_WAVE }) {
        return (Real { bits: 0 }, Real { bits: 0 });
    }
    if wave.span.ge(Real { bits: TAU }) {
        return (wave.amplitude.neg(), wave.amplitude);
    }
    let mut low = min(wave.at_low, wave.at_high);
    let mut high = max(wave.at_low, wave.at_high);
    if wave.crest.le(wave.high) {
        high = max(high, wave.amplitude);
    }
    if wave.trough.le(wave.high) {
        low = min(low, wave.amplitude.neg());
    }
    (low, high)
}

/// The least of the first `k` numbers.
pub open spec fn least(numbers: Seq<Real>, k: int) -> Real
    decreases k,
{
    if k <= 0 {
        Real { bits: LARGEST }
    } else {
        smaller(least(numbers, k - 1), numbers[k - 1])
    }
}

/// The greatest of the first `k` numbers.
pub open spec fn greatest(numbers: Seq<Real>, k: int) -> Real
    decreases k,
{
    if k <= 0 {
        Real { bits: SMALLEST }
    } else {
        larger(greatest(numbers, k - 1), numbers[k - 1])
    }
}

/// The distances between which a face's region lies, if its extent has a
/// region: a cylinder between boundaries or angles, a polygon with corners, a
/// disk or a part of one, a plane inside a circle, a torus bend, any sphere.
pub open spec fn signed_range(face: Face, probe: FaceProbe) -> Option<(Real, Real)> {
    match (face.geom, face.extent) {
        (FaceGeom::Cylinder(_), FaceExtent::Cylinder { length, start, end }) => Some((probe.low, probe.high)),
        (
            FaceGeom::Cylinder(_),
            FaceExtent::PartialCylinder { length, arc_start_angle, arc_end_angle, arc_ref_dir },
        ) => Some((probe.low, probe.high)),
        (
            FaceGeom::Cylinder(_),
            FaceExtent::CylinderArcFace { length, arc_start_angle, arc_end_angle, arc_ref_dir },
        ) => Some((probe.low, probe.high)),
        (FaceGeom::Plane(_), FaceExtent::Polygon { points }) => if points@.len() == 0 {
            None
        } else {
            let n = points@.len() as int;
            Some((least(probe.corners@, n), greatest(probe.corners@, n)))
        },
        (FaceGeom::Plane(_), FaceExtent::Disk { radius }) => Some((probe.low, probe.high)),
        (FaceGeom::Plane(_), FaceExtent::PartialDisk { radius, start_angle, end_angle }) => Some(
            (probe.low, probe.high),
        ),
        (
            FaceGeom::Plane(_),
            FaceExtent::PlanarBoundary { boundary: FaceBoundary::Circle(_) },
        ) => Some((probe.low, probe.high)),
        (FaceGeom::Torus(_), FaceExtent::TorusFillet { start_circle, end_circle }) => Some(
            (probe.low, probe.high),
        ),
        (FaceGeom::Sphere(_), _) => Some((probe.low, probe.high)),
        _ => None,
    }
}

/// Whether a probe has what the face needs.
pub open spec fn fits(face: Face, probe: FaceProbe) -> bool {
    &&& face.extent matches FaceExtent::Polygon { points } ==> probe.corners@.len() == points@.len()
    &&& is_band(face) ==> probe.cylinder is Some
}

/// Whether a face is a full cylinder.
pub open spec fn is_band(face: Face) -> bool {
    face.geom is Cylinder && face.extent is Cylinder
}

/// The distances between which a face's region lies, if its extent has one.
pub fn face_signed_range(face: &Face, probe: &FaceProbe) -> (range: Option<(Real, Real)>)
    requires
        fits(*face, *probe),
    ensures
        range == signed_range(*face, *probe),
{
    match (&face.geom, &face.extent) {
        (FaceGeom::Cylinder(_), FaceExtent::Cylinder { .. }) => Some((probe.low, probe.high)),
        (FaceGeom::Cylinder(_), FaceExtent::PartialCylinder { .. }) => Some((probe.low, probe.high)),
        (FaceGeom::Cylinder(_), FaceExtent::CylinderArcFace { .. }) => Some((probe.low, probe.high)),
        (FaceGeom::Plane(_), FaceExtent::Polygon { points }) => {
            if points.len() == 0 {
                return None;
            }
            let mut low = Real { bits: LARGEST };
            let mut high = Real { bits: SMALLEST };
            let mut i: usize = 0;
            while i < points.len()
                invariant
                    i <= points@.len(),
                    probe.corners@.len() == points@.len(),
                    low == least(probe.corners@, i as int),
                    high == greatest(probe.corners@, i as int),
                decreases points@.len() - i,
            {
                let t = probe.corners[i];
                low = min(low, t);
                high = max(high, t);
                i = i + 1;
            }
            Some((low, high))
        },
        (FaceGeom::Plane(_), FaceExtent::Disk { .. }) => Some((probe.low, probe.high)),
        (FaceGeom::Plane(_), FaceExtent::PartialDisk { .. }) => Some((probe.low, probe.high)),
        (FaceGeom::Plane(_), FaceExtent::PlanarBoundary { boundary: FaceBoundary::Circle(_) }) =>
            Some((probe.low, probe.high)),
        (FaceGeom::Torus(_), FaceExtent::TorusFillet { .. }) => Some((probe.low, probe.high)),
        (FaceGeom::Sphere(_), _) => Some((probe.low, probe.high)),
        _ => None,
    }
}

/// What becomes of a face that is no full cylinder.
#[derive(Clone, Copy, Debug, PartialEq, Eq, Structural)]
pub enum OtherOutcome {
    /// It is kept.
    Kept,
    /// It is dropped.
    Dropped,
    /// It crosses the plane; it is kept whole, so that the shell stays closed.
    Straddling,
}

/// What becomes of a face that is no full cylinder: it goes by the distances
/// of its region, or without one by its carrier's own point.
pub open spec fn other_outcome(face: Face, probe: FaceProbe) -> OtherOutcome {
    match signed_range(face, probe) {
        Some(range) => if (Real { bits: UNDER_PLANE }).at_most(range.0) {
            OtherOutcome::Kept
        } else if range.1.at_most(Real { bits: ON_PLANE }) {
            OtherOutcome::Dropped
        } else {
            OtherOutcome::Straddling
        },
        None => if (Real { bits: UNDER_PLANE }).at_most(probe.carrier) {
            OtherOutcome::Kept
        } else {
            OtherOutcome::Dropped
        },
    }
}

/// What becomes of a face that is no full cylinder.
pub fn classify_other(face: &Face, probe: &FaceProbe) -> (outcome: OtherOutcome)
    requires
        fits(*face, *probe),
    ensures
        outcome == other_outcome(*face, *probe),
{
    match face_signed_range(face, probe) {
        Some(range) => {
            if range.0.ge(Real { bits: UNDER_PLANE }) {
                OtherOutcome::Kept
            } else if range.1.le(Real { bits: ON_PLANE }) {
                OtherOutcome::Dropped
            } else {
                OtherOutcome::Straddling
            }
        },
        None => {
            if probe.carrier.ge(Real { bits: UNDER_PLANE }) {
                OtherOutcome::Kept
            } else {
                OtherOutcome::Dropped
            }
        },
    }
}

/// Those of the ids that name a face.
pub open spec fn live_faces(faces: Map<FaceId, Face>, ids: Seq<FaceId>) -> Seq<FaceId>
    decreases ids.len(),
{
    if ids.len() == 0 {
        seq![]
    } else if faces.dom().contains(ids.last()) {
        live_faces(faces, ids.drop_last()).push(ids.last())
    } else {
        live_faces(faces, ids.drop_last())
    }
}

/// The faces of shells, shell after shell; ids of no shell or face are passed
/// over.
pub open spec fn shell_faces(model: Model, shells: Seq<ShellId>) -> Seq<FaceId>
    decreases shells.len(),
{
    if shells.len() == 0 {
        seq![]
    } else if model.shells.dom().contains(shells.last()) {
        shell_faces(model, shells.drop_last()) + live_faces(
            model.faces,
            model.shells[shells.last()].faces@,
        )
    } else {
        shell_faces(model, shells.drop_last())
    }
}

/// The faces of a solid, in order.
pub open spec fn visited(model: Model, solid: SolidId) -> Seq<FaceId> {
    if model.solids.dom().contains(solid) {
        shell_faces(model, model.solids[solid].shells@)
    } else {
        seq![]
    }
}

proof fn lemma_live_faces(faces: Map<FaceId, Face>, ids: Seq<FaceId>)
    ensures
        forall|i: int|
            0 <= i < live_faces(faces, ids).len() ==> faces.dom().contains(
                #[trigger] live_faces(faces, ids)[i],
            ),
    decreases ids.len(),
{
    if ids.len() > 0 {
        let rest = live_faces(faces, ids.drop_last());
        lemma_live_faces(faces, ids.drop_last());
        assert forall|i: int| 0 <= i < live_faces(faces, ids).len() implies faces.dom().contains(
            #[trigger] live_faces(faces, ids)[i],
        ) by {
            if i < rest.len() {
                assert(faces.dom().contains(rest[i]));
            }
        }
    }
}

/// The faces of shells are faces.
pub proof fn lemma_shell_faces(model: Model, shells: Seq<ShellId>)
    ensures
        forall|i: int|
            0 <= i < shell_faces(model, shells).len() ==> model.faces.dom().contains(
                #[trigger] shell_faces(model, shells)[i],
            ),
    decreases shells.len(),
{
    if shells.len() > 0 {
        let rest = shell_faces(model, shells.drop_last());
        lemma_shell_faces(model, shells.drop_last());
        if model.shells.dom().contains(shells.last()) {
            let more = live_faces(model.faces, model.shells[shells.last()].faces@);
            lemma_live_faces(model.faces, model.shells[shells.last()].faces@);
            assert forall|i: int|
                0 <= i < shell_faces(model, shells).len() implies model.faces.dom().contains(
                #[trigger] shell_faces(model, shells)[i],
            ) by {
                if i < rest.len() {
                    assert(model.faces.dom().contains(rest[i]));
                } else {
                    assert(model.faces.dom().contains(more[i - rest.len()]));
                }
            }
        }
    }
}

/// The faces of a solid, in order.
pub fn solid_faces(brep: &BRep, solid_id: SolidId) -> (ids: Vec<FaceId>)
    requires
        brep.wf(),
    ensures
        ids@ == visited(brep@, solid_id),
        forall|i: int| 0 <= i < ids@.len() ==> brep@.faces.dom().contains(#[trigger] ids@[i]),
{
    let mut ids: Vec<FaceId> = Vec::new();
    let solid = match brep.solids.get(solid_id) {
        None => {
            return ids;
        },
        Some(solid) => solid,
    };
    let mut i: usize = 0;
    while i < solid.shells.len()
        invariant
            i <= solid.shells@.len(),
            brep.wf(),
            ids@ == shell_faces(brep@, solid.shells@.take(i as int)),
        decreases solid.shells@.len() - i,
    {
        assert(solid.shells@.take(i + 1).drop_last() =~= solid.shells@.take(i as int));
        if let Some(shell) = brep.shells.get(solid.shells[i]) {
            let ghost done = ids@;
            let mut j: usize = 0;
            assert(done + live_faces(brep@.faces, shell.faces@.take(0)) =~= done);
            while j < shell.faces.len()
                invariant
                    j <= shell.faces@.len(),
                    brep.wf(),
                    ids@ == done + live_faces(brep@.faces, shell.faces@.take(j as int)),
                decreases shell.faces@.len() - j,
            {
                assert(shell.faces@.take(j + 1).drop_last() =~= shell.faces@.take(j as int));
                let face_id = shell.faces[j];
                if brep.faces.get(face_id).is_some() {
                    ids.push(face_id);
                }
                assert(ids@ =~= done + live_faces(brep@.faces, shell.faces@.take(j + 1)));
                j = j + 1;
            }
            assert(shell.faces@.take(j as int) =~= shell.faces@);
        }
        i = i + 1;
    }
    assert(solid.shells@.take(i as int) =~= solid.shells@);
    proof {
        lemma_shell_faces(brep@, solid.shells@);
    }
    ids
}

/// The faces that close a cut along the axis: the cut itself, and what is left
/// of the two ends.
pub open spec fn cap_plans(radius: Real, half_angle: Real, caps: LateralCaps) -> Seq<PlanView> {
    let end = ExtentView::Plain(
        FaceExtent::PartialDisk {
            radius,
            start_angle: half_angle.negated(),
            end_angle: half_angle,
        },
    );
    seq![
        PlanView {
            geom: FaceGeom::Plane(caps.chord),
            normal: FaceNormal::Same,
            extent: ExtentView::Polygon(
                seq![caps.corners.0, caps.corners.1, caps.corners.2, caps.corners.3],
            ),
        },
        PlanView { geom: FaceGeom::Plane(caps.start), normal: FaceNormal::Same, extent: end },
        PlanView { geom: FaceGeom::Plane(caps.end), normal: FaceNormal::Same, extent: end },
    ]
}

/// What is left of a cylinder that is cut along its axis: the arc and the
/// faces that close it.
pub open spec fn lateral_plans(radius: Real, shape: LateralShape) -> Seq<PlanView> {
    (match shape.band {
        None => seq![],
        Some(band) => seq![
            PlanView {
                geom: FaceGeom::Cylinder(band.0),
                normal: FaceNormal::Same,
                extent: ExtentView::Plain(
                    FaceExtent::PartialCylinder {
                        length: band.1,
                        arc_start_angle: shape.half_angle.negated(),
                        arc_end_angle: shape.half_angle,
                        arc_ref_dir: shape.up,
                    },
                ),
            },
        ],
    }) + (match shape.caps {
        None => seq![],
        Some(caps) => cap_plans(radius, shape.half_angle, caps),
    })
}

/// What is left of a cylinder that is cut across its axis: the rest of it
/// between two boundaries, and a disk over the cut.
pub open spec fn axial_plans(
    radius: Real,
    shape: AxialShape,
    start: FaceBoundary,
    end: FaceBoundary,
) -> Seq<PlanView> {
    (match shape.band {
        None => seq![],
        Some(band) => seq![
            PlanView {
                geom: FaceGeom::Cylinder(band.0),
                normal: FaceNormal::Same,
                extent: ExtentView::Plain(FaceExtent::Cylinder { length: band.1, start, end }),
            },
        ],
    }).push(
        PlanView {
            geom: FaceGeom::Plane(shape.cap),
            normal: FaceNormal::Same,
            extent: ExtentView::Plain(FaceExtent::Disk { radius }),
        },
    )
}

/// What is left of a full cylinder. The end that is cut gets a circle; the
/// other end keeps its boundary, so that it still meets its neighbour.
pub open spec fn band_plans(
    cyl: CylSurf,
    length: Real,
    start: FaceBoundary,
    end: FaceBoundary,
    probe: CylinderProbe,
) -> Seq<PlanView> {
    match cylinder_outcome(probe) {
        CylinderOutcome::EntirelyKept => seq![
            PlanView {
                geom: FaceGeom::Cylinder(cyl),
                normal: FaceNormal::Same,
                extent: ExtentView::Plain(FaceExtent::Cylinder { length, start, end }),
            },
        ],
        CylinderOutcome::EntirelyDiscarded => seq![],
        CylinderOutcome::LateralCut => lateral_plans(cyl.radius, probe.lateral),
        CylinderOutcome::EndCut => axial_plans(
            cyl.radius,
            probe.without_end,
            start,
            FaceBoundary::Circle(probe.without_end.circle),
        ),
        CylinderOutcome::StartCut => axial_plans(
            cyl.radius,
            probe.without_start,
            FaceBoundary::Circle(probe.without_start.circle),
            end,
        ),
    }
}

/// Add the faces that close a cut along the axis.
fn add_lateral_cut_caps(
    out: &mut Vec<FacePlan>,
    caps: &LateralCaps,
    radius: Real,
    half_angle: Real,
)
    ensures
        plan_views(final(out)@) == plan_views(old(out)@) + cap_plans(radius, half_angle, *caps),
{
    let ghost before = plan_views(out@);
    let mut points: Vec<Point3> = Vec::new();
    points.push(caps.corners.0);
    points.push(caps.corners.1);
    points.push(caps.corners.2);
    points.push(caps.corners.3);
    assert(points@ =~= seq![caps.corners.0, caps.corners.1, caps.corners.2, caps.corners.3]);
    let chord = FacePlan {
        geom: FaceGeom::Plane(caps.chord),
        normal: FaceNormal::Same,
        extent: FaceExtent::Polygon { points },
    };
    let start = FacePlan {
        geom: FaceGeom::Plane(caps.start),
        normal: FaceNormal::Same,
        extent: FaceExtent::PartialDisk {
            radius,
            start_angle: half_angle.neg(),
            end_angle: half_angle,
        },
    };
    let end = FacePlan {
        geom: FaceGeom::Plane(caps.end),
        normal: FaceNormal::Same,
        extent: FaceExtent::PartialDisk {
            radius,
            start_angle: half_angle.neg(),
            end_angle: half_angle,
        },
    };
    proof {
        lemma_views_push(out@, chord);
        lemma_views_push(out@.push(chord), start);
        lemma_views_push(out@.push(chord).push(start), end);
        assert(before.push(chord@).push(start@).push(end@) =~= before + seq![
            chord@,
            start@,
            end@,
        ]);
    }
    out.push(chord);
    out.push(start);
    out.push(end);
}

/// Add what is left of a full cylinder; say what became of it.
fn add_band(
    out: &mut Vec<FacePlan>,
    cyl: CylSurf,
    length: Real,
    start: FaceBoundary,
    end: FaceBoundary,
    probe: &CylinderProbe,
) -> (outcome: CylinderOutcome)
    ensures
        outcome == cylinder_outcome(*probe),
        plan_views(final(out)@) == plan_views(old(out)@) + band_plans(
            cyl,
            length,
            start,
            end,
            *probe,
        ),
{
    let ghost before = out@;
    let outcome = classify_cylinder(probe);
    match outcome {
        CylinderOutcome::EntirelyKept => {
            let plan = FacePlan {
                geom: FaceGeom::Cylinder(cyl),
                normal: FaceNormal::Same,
                extent: FaceExtent::Cylinder { length, start, end },
            };
            out.push(plan);
            proof {
                lemma_views_push(before, plan);
            }
        },
        CylinderOutcome::EntirelyDiscarded => {},
        CylinderOutcome::LateralCut => {
            let shape = &probe.lateral;
            if let Some(band) = shape.band {
                let plan = FacePlan {
                    geom: FaceGeom::Cylinder(band.0),
                    normal: FaceNormal::Same,
                    extent: FaceExtent::PartialCylinder {
                        length: band.1,
                        arc_start_angle: shape.half_angle.neg(),
                        arc_end_angle: shape.half_angle,
                        arc_ref_dir: shape.up,
                    },
                };
                out.push(plan);
                proof {
                    lemma_views_push(before, plan);
                }
            }
            if let Some(caps) = shape.caps {
                add_lateral_cut_caps(out, &caps, cyl.radius, shape.half_angle);
            }
        },
        CylinderOutcome::EndCut => {
            let circle = FaceBoundary::Circle(probe.without_end.circle);
            add_axial(out, cyl.radius, &probe.without_end, start, circle);
        },
        CylinderOutcome::StartCut => {
            let circle = FaceBoundary::Circle(probe.without_start.circle);
            add_axial(out, cyl.radius, &probe.without_start, circle, end);
        },
    }
    assert(plan_views(out@) =~= plan_views(before) + band_plans(cyl, length, start, end, *probe));
    outcome
}

/// Add what is left of a cylinder that is cut across its axis.
fn add_axial(
    out: &mut Vec<FacePlan>,
    radius: Real,
    shape: &AxialShape,
    start: FaceBoundary,
    end: FaceBoundary,
)
    ensures
        plan_views(final(out)@) == plan_views(old(out)@) + axial_plans(radius, *shape, start, end),
{
    let ghost before = out@;
    if let Some(band) = shape.band {
        let plan = FacePlan {
            geom: FaceGeom::Cylinder(band.0),
            normal: FaceNormal::Same,
            extent: FaceExtent::Cylinder { length: band.1, start, end },
        };
        out.push(plan);
        proof {
            lemma_views_push(before, plan);
        }
    }
    let ghost mid = out@;
    let cap = FacePlan {
        geom: FaceGeom::Plane(shape.cap),
        normal: FaceNormal::Same,
        extent: FaceExtent::Disk { radius },
    };
    out.push(cap);
    proof {
        lemma_views_push(mid, cap);
    }
    assert(plan_views(out@) =~= plan_views(before) + axial_plans(radius, *shape, start, end));
}

/// What the first `k` faces of a solid come to.
#[verifier::ext_equal]
pub struct CutTally {
    /// What is left of the full cylinders.
    pub plans: Seq<PlanView>,
    /// The other faces that are kept.
    pub copied: Seq<FaceId>,
    /// How many full cylinders there are.
    pub bands: int,
    /// How many of them are kept whole.
    pub kept: int,
    /// How many of them are dropped.
    pub dropped: int,
    /// How many other faces cross the plane.
    pub straddling: int,
}

/// One more face of a solid.
pub open spec fn tally_face(tally: CutTally, id: FaceId, face: Face, probe: FaceProbe) -> CutTally {
    match (face.geom, face.extent) {
        (FaceGeom::Cylinder(cyl), FaceExtent::Cylinder { length, start, end }) => {
            let outcome = cylinder_outcome(probe.cylinder->0);
            CutTally {
                plans: tally.plans + band_plans(cyl, length, start, end, probe.cylinder->0),
                bands: tally.bands + 1,
                kept: tally.kept + (if outcome is EntirelyKept {
                    1int
                } else {
                    0
                }),
                dropped: tally.dropped + (if outcome is EntirelyDiscarded {
                    1int
                } else {
                    0
                }),
                ..tally
            }
        },
        _ => match other_outcome(face, probe) {
            OtherOutcome::Kept => CutTally { copied: tally.copied.push(id), ..tally },
            OtherOutcome::Dropped => tally,
            OtherOutcome::Straddling => CutTally {
                copied: tally.copied.push(id),
                straddling: tally.straddling + 1,
                ..tally
            },
        },
    }
}

/// What the first `k` faces of a solid come to.
pub open spec fn tally(
    faces: Map<FaceId, Face>,
    ids: Seq<FaceId>,
    probes: Seq<FaceProbe>,
    k: int,
) -> CutTally
    decreases k,
{
    if k <= 0 {
        CutTally { plans: seq![], copied: seq![], bands: 0, kept: 0, dropped: 0, straddling: 0 }
    } else {
        tally_face(
            tally(faces, ids, probes, k - 1),
            ids[k - 1],
            faces[ids[k - 1]],
            probes[k - 1],
        )
    }
}

/// What all faces of a solid come to.
pub open spec fn solid_tally(model: Model, solid: SolidId, probes: Seq<FaceProbe>) -> CutTally {
    let ids = visited(model, solid);
    tally(model.faces, ids, probes, ids.len() as int)
}

/// What becomes of a solid.
#[derive(Clone, Copy, Debug, PartialEq, Eq, Structural)]
pub enum SolidFate {
    /// It stays as it is.
    Unchanged,
    /// It is removed.
    Drop,
    /// It is rebuilt from what is left of its faces.
    Replace,
}

/// What becomes of a solid: one without full cylinders stays, one whose full
/// cylinders are all dropped goes, one whose full cylinders are all kept
/// stays, and any other is rebuilt.
pub open spec fn fate(tally: CutTally) -> SolidFate {
    if tally.bands == 0 {
        SolidFate::Unchanged
    } else if tally.dropped == tally.bands {
        SolidFate::Drop
    } else if tally.kept == tally.bands {
        SolidFate::Unchanged
    } else {
        SolidFate::Replace
    }
}

/// What a solid is rebuilt from.
#[derive(Debug)]
pub struct NewSolidParts {
    /// What is left of its full cylinders.
    pub plans: Vec<FacePlan>,
    /// Its other faces that are kept.
    pub copied_face_ids: Vec<FaceId>,
    /// Its name.
    pub name: Option<String>,
    /// How many of the kept faces reach across the plane.
    pub straddling: usize,
}

/// What becomes of a solid.
#[derive(Debug)]
pub enum SolidOutcome {
    /// It stays as it is.
    Unchanged,
    /// It is removed.
    Drop,
    /// It is rebuilt.
    Replace(NewSolidParts),
}

/// Whether the probes have what the faces of a solid need.
pub open spec fn probes_fit(model: Model, solid: SolidId, probes: Seq<FaceProbe>) -> bool {
    let ids = visited(model, solid);
    &&& probes.len() == ids.len()
    &&& forall|k: int| 0 <= k < ids.len() ==> fits(model.faces[ids[k]], #[trigger] probes[k])
}

/// Whether parts are those that a tally says.
pub open spec fn parts_of(parts: NewSolidParts, tally: CutTally, name: Option<Seq<char>>) -> bool {
    &&& plan_views(parts.plans@) == tally.plans
    &&& parts.copied_face_ids@ == tally.copied
    &&& parts.straddling == tally.straddling
    &&& name_view(parts.name) == name
}

/// Whether an outcome is that of a solid.
pub open spec fn outcome_of(
    outcome: SolidOutcome,
    model: Model,
    solid: SolidId,
    probes: Seq<FaceProbe>,
) -> bool {
    let tally = solid_tally(model, solid, probes);
    match outcome {
        SolidOutcome::Unchanged => fate(tally) is Unchanged,
        SolidOutcome::Drop => fate(tally) is Drop,
        SolidOutcome::Replace(parts) => fate(tally) is Replace && parts_of(
            parts,
            tally,
            name_view(model.solids[solid].name),
        ),
    }
}

/// Say what becomes of a solid; `probes` measure its faces, in the order of
/// [`solid_faces`].
pub fn process_solid(brep: &BRep, solid_id: SolidId, probes: &[FaceProbe]) -> (outcome:
    SolidOutcome)
    requires
        brep.wf(),
        probes_fit(brep@, solid_id, probes@),
    ensures
        outcome_of(outcome, brep@, solid_id, probes@),
{
    let solid = match brep.solids.get(solid_id) {
        None => {
            return SolidOutcome::Unchanged;
        },
        Some(solid) => solid,
    };
    let ids = solid_faces(brep, solid_id);
    let mut plans: Vec<FacePlan> = Vec::new();
    let mut copied: Vec<FaceId> = Vec::new();
    let mut bands: usize = 0;
    let mut kept: usize = 0;
    let mut dropped: usize = 0;
    let mut straddling: usize = 0;
    let mut k: usize = 0;
    assert(plan_views(plans@) =~= seq![]);
    while k < ids.len()
        invariant
            k <= ids@.len(),
            brep.wf(),
            probes_fit(brep@, solid_id, probes@),
            ids@ == visited(brep@, solid_id),
            forall|i: int| 0 <= i < ids@.len() ==> brep@.faces.dom().contains(#[trigger] ids@[i]),
            bands <= k,
            kept <= bands,
            dropped <= bands,
            straddling <= k,
            (CutTally {
                plans: plan_views(plans@),
                copied: copied@,
                bands: bands as int,
                kept: kept as int,
                dropped: dropped as int,
                straddling: straddling as int,
            }) == tally(brep@.faces, ids@, probes@, k as int),
        decreases ids@.len() - k,
    {
        assert(brep@.faces.dom().contains(ids@[k as int]));
        let face_id = ids[k];
        let probe = &probes[k];
        assert(fits(brep@.faces[ids@[k as int]], probes@[k as int]));
        if let Some(face) = brep.faces.get(face_id) {
            match (&face.geom, &face.extent) {
                (FaceGeom::Cylinder(cyl), FaceExtent::Cylinder { length, start, end }) => {
                    if let Some(cylinder) = &probe.cylinder {
                        let outcome = add_band(&mut plans, *cyl, *length, *start, *end, cylinder);
                        bands = bands + 1;
                        match outcome {
                            CylinderOutcome::EntirelyKept => {
                                kept = kept + 1;
                            },
                            CylinderOutcome::EntirelyDiscarded => {
                                dropped = dropped + 1;
                            },
                            _ => {},
                        }
                    }
                },
                _ => match classify_other(face, probe) {
                    OtherOutcome::Kept => {
                        copied.push(face_id);
                    },
                    OtherOutcome::Dropped => {},
                    OtherOutcome::Straddling => {
                        straddling = straddling + 1;
                        copied.push(face_id);
                    },
                },
            }
        }
        k = k + 1;
    }
    if bands == 0 {
        return SolidOutcome::Unchanged;
    }
    if dropped == bands {
        return SolidOutcome::Drop;
    }
    if kept == bands {
        return SolidOutcome::Unchanged;
    }
    SolidOutcome::Replace(
        NewSolidParts {
            plans,
            copied_face_ids: copied,
            name: copy_name(&solid.name),
            straddling,
        },
    )
}

/// A plan for a copy of a face.
pub open spec fn copy_plan(face: Face) -> PlanView {
    PlanView { geom: face.geom, normal: face.normal, extent: face.extent@ }
}

/// Plans for copies of faces; ids of no face are passed over.
pub open spec fn copy_plans(faces: Map<FaceId, Face>, ids: Seq<FaceId>) -> Seq<PlanView>
    decreases ids.len(),
{
    if ids.len() == 0 {
        seq![]
    } else if faces.dom().contains(ids.last()) {
        copy_plans(faces, ids.drop_last()).push(copy_plan(faces[ids.last()]))
    } else {
        copy_plans(faces, ids.drop_last())
    }
}

/// The second model is the first with a solid of the planned faces; without
/// any, it is the first.
pub open spec fn materialised(
    before: Model,
    after: Model,
    plans: Seq<PlanView>,
    name: Option<Seq<char>>,
) -> bool {
    if plans.len() == 0 {
        after == before
    } else {
        exists|ids: BuiltIds| #[trigger] built(before, after, plans, name, ids)
    }
}

/// Add the solid that parts describe, with copies of the faces that they name.
pub fn materialise_solid(brep: &mut BRep, parts: NewSolidParts)
    requires
        old(brep).wf(),
        ({
            let n = parts.plans@.len() + copy_plans(
                old(brep)@.faces,
                parts.copied_face_ids@,
            ).len();
            &&& old(brep)@.faces.dom().len() + n <= SLOT_LIMIT
            &&& old(brep)@.loops.dom().len() + n <= SLOT_LIMIT
        }),
        old(brep)@.shells.dom().len() < SLOT_LIMIT,
        old(brep)@.solids.dom().len() < SLOT_LIMIT,
    ensures
        final(brep).wf(),
        materialised(
            old(brep)@,
            final(brep)@,
            plan_views(parts.plans@) + copy_plans(old(brep)@.faces, parts.copied_face_ids@),
            name_view(parts.name),
        ),
        ({
            let n = parts.plans@.len() + copy_plans(
                old(brep)@.faces,
                parts.copied_face_ids@,
            ).len();
            let one: nat = if n == 0 {
                0
            } else {
                1
            };
            &&& final(brep)@.faces.dom().len() == old(brep)@.faces.dom().len() + n
            &&& final(brep)@.loops.dom().len() == old(brep)@.loops.dom().len() + n
            &&& final(brep)@.shells.dom().len() == old(brep)@.shells.dom().len() + one
            &&& final(brep)@.solids.dom().len() == old(brep)@.solids.dom().len() + one
        }),
        forall|k: SolidId| old(brep).solids.spent(k) ==> #[trigger] final(brep).solids.spent(k),
{
    let ghost before = brep@;
    let ghost own = plan_views(parts.plans@);
    let ghost listed = parts.copied_face_ids@;
    let mut plans = parts.plans;
    let copied = parts.copied_face_ids;
    let mut i: usize = 0;
    assert(own + copy_plans(before.faces, listed.take(0)) =~= own);
    while i < copied.len()
        invariant
            i <= copied@.len(),
            copied@ == listed,
            brep.wf(),
            brep@ == before,
            plan_views(plans@) == own + copy_plans(before.faces, listed.take(i as int)),
        decreases copied@.len() - i,
    {
        assert(listed.take(i + 1).drop_last() =~= listed.take(i as int));
        if let Some(src) = brep.faces.get(copied[i]) {
            let plan = FacePlan {
                geom: src.geom,
                normal: src.normal,
                extent: src.extent.duplicate(),
            };
            let ghost so_far = plans@;
            plans.push(plan);
            proof {
                lemma_views_push(so_far, plan);
                assert(plan@ == copy_plan(before.faces[listed[i as int]]));
                assert(plan_views(plans@) =~= own + copy_plans(before.faces, listed.take(i + 1)));
            }
        }
        i = i + 1;
    }
    assert(listed.take(i as int) =~= listed);
    let ghost all = plan_views(plans@);
    if plans.len() == 0 {
        return;
    }
    let id = build_solid(brep, plans, parts.name);
}

/// What a solid is rebuilt from: plans for all its new faces, and its name.
#[verifier::ext_equal]
pub struct Rebuild {
    pub plans: Seq<PlanView>,
    pub name: Option<Seq<char>>,
}

/// What a solid is rebuilt from.
pub open spec fn rebuild(model: Model, solid: SolidId, probes: Seq<FaceProbe>) -> Rebuild {
    let tally = solid_tally(model, solid, probes);
    Rebuild {
        plans: tally.plans + copy_plans(model.faces, tally.copied),
        name: name_view(model.solids[solid].name),
    }
}

/// Those of the first `k` solids that do not stay as they are.
pub open spec fn removed(
    model: Model,
    ids: Seq<SolidId>,
    probes: Seq<Vec<FaceProbe>>,
    k: int,
) -> Seq<SolidId>
    decreases k,
{
    if k <= 0 {
        seq![]
    } else if fate(solid_tally(model, ids[k - 1], probes[k - 1]@)) is Unchanged {
        removed(model, ids, probes, k - 1)
    } else {
        removed(model, ids, probes, k - 1).push(ids[k - 1])
    }
}

/// What those of the first `k` solids that are rebuilt are rebuilt from.
pub open spec fn rebuilds(
    model: Model,
    ids: Seq<SolidId>,
    probes: Seq<Vec<FaceProbe>>,
    k: int,
) -> Seq<Rebuild>
    decreases k,
{
    if k <= 0 {
        seq![]
    } else if fate(solid_tally(model, ids[k - 1], probes[k - 1]@)) is Replace {
        rebuilds(model, ids, probes, k - 1).push(rebuild(model, ids[k - 1], probes[k - 1]@))
    } else {
        rebuilds(model, ids, probes, k - 1)
    }
}

/// How many faces rebuilding adds.
pub open spec fn rebuilt_faces(all: Seq<Rebuild>) -> nat
    decreases all.len(),
{
    if all.len() == 0 {
        0
    } else {
        rebuilt_faces(all.drop_last()) + all.last().plans.len()
    }
}

/// The second model is the first with all solids rebuilt, one after the other.
pub open spec fn rebuilt(before: Model, after: Model, all: Seq<Rebuild>) -> bool
    decreases all.len(),
{
    if all.len() == 0 {
        after == before
    } else {
        exists|mid: Model|
            rebuilt(before, mid, all.drop_last()) && #[trigger] materialised(
                mid,
                after,
                all.last().plans,
                all.last().name,
            )
    }
}

/// A model without some of its solids.
pub open spec fn without_solids(model: Model, ids: Seq<SolidId>) -> Model {
    Model { solids: model.solids.remove_keys(ids.to_set()), ..model }
}

/// Faces that come along are faces.
pub proof fn lemma_tally_copied(
    faces: Map<FaceId, Face>,
    ids: Seq<FaceId>,
    probes: Seq<FaceProbe>,
    k: int,
)
    requires
        0 <= k <= ids.len(),
        forall|i: int| 0 <= i < ids.len() ==> faces.dom().contains(#[trigger] ids[i]),
    ensures
        forall|i: int|
            0 <= i < tally(faces, ids, probes, k).copied.len() ==> faces.dom().contains(
                #[trigger] tally(faces, ids, probes, k).copied[i],
            ),
    decreases k,
{
    if k > 0 {
        let rest = tally(faces, ids, probes, k - 1).copied;
        lemma_tally_copied(faces, ids, probes, k - 1);
        assert forall|i: int|
            0 <= i < tally(faces, ids, probes, k).copied.len() implies faces.dom().contains(
            #[trigger] tally(faces, ids, probes, k).copied[i],
        ) by {
            if i < rest.len() {
                assert(faces.dom().contains(rest[i]));
            }
            assert(faces.dom().contains(ids[k - 1]));
        }
    }
}

/// Copies of faces are planned alike in a model that has more faces.
proof fn lemma_copy_plans_extended(
    before: Map<FaceId, Face>,
    after: Map<FaceId, Face>,
    ids: Seq<FaceId>,
)
    requires
        forall|k: FaceId| #[trigger]
            before.dom().contains(k) ==> after.dom().contains(k) && after[k] == before[k],
        forall|i: int| 0 <= i < ids.len() ==> before.dom().contains(#[trigger] ids[i]),
    ensures
        copy_plans(after, ids) == copy_plans(before, ids),
    decreases ids.len(),
{
    if ids.len() > 0 {
        assert forall|i: int| 0 <= i < ids.len() - 1 implies before.dom().contains(
            #[trigger] ids.drop_last()[i],
        ) by {
            assert(before.dom().contains(ids[i]));
        }
        lemma_copy_plans_extended(before, after, ids.drop_last());
        assert(before.dom().contains(ids[ids.len() - 1]));
    }
}

proof fn lemma_rebuilt_faces_take(all: Seq<Rebuild>, j: int)
    requires
        0 <= j <= all.len(),
    ensures
        rebuilt_faces(all.take(j)) <= rebuilt_faces(all),
    decreases all.len() - j,
{
    if j < all.len() {
        lemma_rebuilt_faces_take(all, j + 1);
        assert(all.take(j + 1).drop_last() =~= all.take(j));
    } else {
        assert(all.take(j) =~= all);
    }
}

/// Whether parts are what a solid is rebuilt from.
spec fn parts_match(parts: NewSolidParts, rebuild: Rebuild, faces: Map<FaceId, Face>) -> bool {
    &&& plan_views(parts.plans@) + copy_plans(faces, parts.copied_face_ids@) == rebuild.plans
    &&& name_view(parts.name) == rebuild.name
    &&& forall|i: int|
        0 <= i < parts.copied_face_ids@.len() ==> faces.dom().contains(
            #[trigger] parts.copied_face_ids@[i],
        )
}

/// Whether one map has all the entries of another.
spec fn keeps_faces(before: Map<FaceId, Face>, after: Map<FaceId, Face>) -> bool {
    forall|k: FaceId| #[trigger]
        before.dom().contains(k) ==> after.dom().contains(k) && after[k] == before[k]
}

proof fn lemma_materialised_keeps_faces(
    before: Model,
    after: Model,
    plans: Seq<PlanView>,
    name: Option<Seq<char>>,
)
    requires
        materialised(before, after, plans, name),
    ensures
        keeps_faces(before.faces, after.faces),
{
    if plans.len() > 0 {
        let ids = choose|ids: BuiltIds| #[trigger] built(before, after, plans, name, ids);
        assert(crate::solid::extended(before.faces, after.faces, ids.faces));
    }
}

/// Rebuilding one solid more.
proof fn lemma_rebuilt_step(before: Model, mid: Model, after: Model, all: Seq<Rebuild>)
    requires
        all.len() > 0,
        rebuilt(before, mid, all.drop_last()),
        materialised(mid, after, all.last().plans, all.last().name),
    ensures
        rebuilt(before, after, all),
{
}

/// Whether there are probes for every solid of a model, in slot order.
pub open spec fn all_probes_fit(model: Model, probes: Seq<Vec<FaceProbe>>) -> bool {
    let ids = key_order(model.solids.dom());
    &&& probes.len() == ids.len()
    &&& forall|k: int| 0 <= k < ids.len() ==> probes_fit(model, ids[k], (#[trigger] probes[k])@)
}

/// Cut every solid of a model; `probes` measure the faces of each, in the order
/// of the solids' slots and, for each, of [`solid_faces`]. Solids that do not
/// stay as they are go, and those that are rebuilt come back, in that order,
/// with ids that none had before. Returns how many solids there are then.
pub fn half_space_cut_brep(brep: &mut BRep, probes: &[Vec<FaceProbe>]) -> (remaining: usize)
    requires
        old(brep).wf(),
        all_probes_fit(old(brep)@, probes@),
        ({
            let ids = key_order(old(brep)@.solids.dom());
            let all = rebuilds(old(brep)@, ids, probes@, ids.len() as int);
            &&& old(brep)@.faces.dom().len() + rebuilt_faces(all) <= SLOT_LIMIT
            &&& old(brep)@.loops.dom().len() + rebuilt_faces(all) <= SLOT_LIMIT
            &&& old(brep)@.shells.dom().len() + all.len() <= SLOT_LIMIT
        }),
    ensures
        final(brep).wf(),
        remaining == final(brep)@.solids.dom().len(),
        ({
            let ids = key_order(old(brep)@.solids.dom());
            rebuilt(
                without_solids(old(brep)@, removed(old(brep)@, ids, probes@, ids.len() as int)),
                final(brep)@,
                rebuilds(old(brep)@, ids, probes@, ids.len() as int),
            )
        }),
        ({
            let ids = key_order(old(brep)@.solids.dom());
            let gone = removed(old(brep)@, ids, probes@, ids.len() as int);
            forall|id: SolidId|
                gone.contains(id) ==> !(#[trigger] final(brep)@.solids.dom().contains(id))
        }),
{
    let ghost before = brep@;
    let ghost first = brep.solids;
    let ids = brep.solids.keys();
    let held: usize = brep.solids.len();
    let ghost n = ids@.len() as int;
    let ghost all = rebuilds(before, ids@, probes@, n);
    let mut to_drop: Vec<SolidId> = Vec::new();
    let mut to_add: Vec<NewSolidParts> = Vec::new();
    let mut k: usize = 0;
    while k < ids.len()
        invariant
            k <= ids@.len(),
            brep.wf(),
            brep@ == before,
            ids@ == key_order(before.solids.dom()),
            ids@.no_duplicates(),
            ids@.to_set() == before.solids.dom(),
            all_probes_fit(before, probes@),
            to_drop@ == removed(before, ids@, probes@, k as int),
            to_add@.len() == rebuilds(before, ids@, probes@, k as int).len(),
            to_add@.len() <= to_drop@.len(),
            to_drop@.no_duplicates(),
            forall|i: int|
                0 <= i < to_drop@.len() ==> ids@.take(k as int).contains(#[trigger] to_drop@[i]),
            forall|i: int|
                0 <= i < to_add@.len() ==> parts_match(
                    #[trigger] to_add@[i],
                    rebuilds(before, ids@, probes@, k as int)[i],
                    before.faces,
                ),
        decreases ids@.len() - k,
    {
        let solid_id = ids[k];
        let ghost taken = ids@.take(k as int);
        let ghost longer = ids@.take(k + 1);
        proof {
            assert(probes_fit(before, ids@[k as int], probes@[k as int]@));
            assert forall|id: SolidId| taken.contains(id) implies longer.contains(id) by {
                let i = choose|i: int| 0 <= i < taken.len() && taken[i] == id;
                assert(longer[i] == id);
            }
            assert(longer[k as int] == solid_id);
            assert(longer.contains(solid_id));
            assert forall|i: int| 0 <= i < to_drop@.len() implies #[trigger] to_drop@[i]
                != solid_id by {
                assert(taken.contains(to_drop@[i]));
                let j = choose|j: int| 0 <= j < taken.len() && taken[j] == to_drop@[i];
                assert(ids@[j] == to_drop@[i]);
            }
        }
        let ghost drops = to_drop@;
        match process_solid(brep, solid_id, &probes[k]) {
            SolidOutcome::Unchanged => {},
            SolidOutcome::Drop => {
                to_drop.push(solid_id);
            },
            SolidOutcome::Replace(parts) => {
                proof {
                    let visits = visited(before, solid_id);
                    lemma_shell_faces(before, before.solids[solid_id].shells@);
                    assert forall|i: int| 0 <= i < visits.len() implies before.faces.dom().contains(
                        #[trigger] visits[i],
                    ) by {}
                    lemma_tally_copied(
                        before.faces,
                        visits,
                        probes@[k as int]@,
                        visits.len() as int,
                    );
                    assert(parts_match(
                        parts,
                        rebuild(before, solid_id, probes@[k as int]@),
                        before.faces,
                    ));
                }
                to_drop.push(solid_id);
                to_add.push(parts);
            },
        }
        k = k + 1;
    }
    assert(ids@.take(k as int) =~= ids@);
    assert(k == n);
    let ghost gone = to_drop@;
    assert forall|i: int| 0 <= i < gone.len() implies before.solids.dom().contains(
        #[trigger] gone[i],
    ) by {
        assert(ids@.contains(gone[i]));
        assert(ids@.to_set().contains(gone[i]));
    }
    let mut i: usize = 0;
    assert(without_solids(before, gone.take(0)) =~= before) by {
        assert(gone.take(0).to_set() =~= Set::<SolidId>::empty());
        assert(without_solids(before, gone.take(0)).solids =~= before.solids);
    }
    while i < to_drop.len()
        invariant
            i <= to_drop@.len(),
            to_drop@ == gone,
            gone.no_duplicates(),
            forall|j: int|
                0 <= j < gone.len() ==> before.solids.dom().contains(#[trigger] gone[j]),
            brep.wf(),
            brep@ == without_solids(before, gone.take(i as int)),
            first.wf(),
            first@ == before.solids,
            forall|j: int| 0 <= j < i ==> brep.solids.spent(#[trigger] gone[j]),
            before.solids.dom().finite(),
            brep@.solids.dom().finite(),
            brep@.solids.dom().len() + i == before.solids.dom().len(),
        decreases to_drop@.len() - i,
    {
        let ghost shorter = gone.take(i as int);
        let ghost longer = gone.take(i + 1);
        proof {
            assert(before.solids.dom().contains(gone[i as int]));
            assert forall|id: SolidId| longer.to_set().contains(id) <==> shorter.to_set().contains(
                id,
            ) || id == gone[i as int] by {
                if shorter.to_set().contains(id) {
                    let j = choose|j: int| 0 <= j < shorter.len() && shorter[j] == id;
                    assert(longer[j] == id);
                }
                if longer.to_set().contains(id) {
                    let j = choose|j: int| 0 <= j < longer.len() && longer[j] == id;
                    if j < i {
                        assert(shorter[j] == id);
                    }
                }
                assert(longer[i as int] == gone[i as int]);
            }
            if shorter.to_set().contains(gone[i as int]) {
                let j = choose|j: int| 0 <= j < shorter.len() && shorter[j] == gone[i as int];
                assert(gone[j] == gone[i as int]);
            }
        }
        let ghost now = brep@;
        let ghost held_now = brep.solids;
        let taken = brep.solids.remove(to_drop[i]);
        assert forall|j: int| 0 <= j < i + 1 implies brep.solids.spent(#[trigger] gone[j]) by {
            if j < i {
                assert(held_now.spent(gone[j]));
                first.lemma_own_slots(gone[j], gone[i as int]);
            }
        }
        assert(brep@.solids =~= without_solids(before, longer).solids);
        assert(brep@.solids.dom() =~= now.solids.dom().remove(gone[i as int]));
        i = i + 1;
    }
    assert(gone.take(i as int) =~= gone);
    let ghost start = brep@;
    let ghost given = to_add@;
    let ghost mut j: int = 0;
    assert(all.take(0) =~= seq![]);
    for parts in it: to_add
        invariant
            it.seq() == given,
            given.len() == all.len(),
            all.len() <= gone.len(),
            j == it.index(),
            forall|i: int|
                0 <= i < given.len() ==> parts_match(#[trigger] given[i], all[i], before.faces),
            brep.wf(),
            forall|i: int| 0 <= i < gone.len() ==> brep.solids.spent(#[trigger] gone[i]),
            keeps_faces(before.faces, brep@.faces),
            rebuilt(start, brep@, all.take(j)),
            before.faces.dom().len() + rebuilt_faces(all) <= SLOT_LIMIT,
            before.loops.dom().len() + rebuilt_faces(all) <= SLOT_LIMIT,
            before.shells.dom().len() + all.len() <= SLOT_LIMIT,
            before.solids.dom().len() <= SLOT_LIMIT,
            brep@.faces.dom().len() == before.faces.dom().len() + rebuilt_faces(all.take(j)),
            brep@.loops.dom().len() == before.loops.dom().len() + rebuilt_faces(all.take(j)),
            brep@.shells.dom().len() <= before.shells.dom().len() + j,
            brep@.solids.dom().len() + gone.len() <= before.solids.dom().len() + j,
    {
        let ghost now = brep@;
        proof {
            assert(parts_match(given[j], all[j], before.faces));
            lemma_copy_plans_extended(before.faces, now.faces, parts.copied_face_ids@);
            lemma_rebuilt_faces_take(all, j + 1);
            assert(all.take(j + 1).drop_last() =~= all.take(j));
            assert(all.take(j + 1).last() == all[j]);
        }
        materialise_solid(brep, parts);
        proof {
            lemma_materialised_keeps_faces(now, brep@, all[j].plans, all[j].name);
            lemma_rebuilt_step(start, now, brep@, all.take(j + 1));
            j = j + 1;
        }
    }
    assert(all.take(j) =~= all);
    proof {
        assert forall|id: SolidId| gone.contains(id) implies !(
        #[trigger] brep@.solids.dom().contains(id)) by {
            let i = choose|i: int| 0 <= i < gone.len() && gone[i] == id;
            assert(brep.solids.spent(gone[i]));
            brep.solids.lemma_spent(id);
        }
    }
    brep.solids.len()
}

proof fn lemma_materialised_solids(
    before: Model,
    after: Model,
    plans: Seq<PlanView>,
    name: Option<Seq<char>>,
)
    requires
        materialised(before, after, plans, name),
        before.solids.dom().finite(),
    ensures
        forall|id: SolidId| #[trigger]
            before.solids.dom().contains(id) ==> after.solids.dom().contains(id)
                && after.solids[id] == before.solids[id],
        after.solids.dom().finite(),
        after.solids.dom().len() == before.solids.dom().len() + (if plans.len() == 0 {
            0nat
        } else {
            1
        }),
{
    if plans.len() > 0 {
        let ids = choose|ids: BuiltIds| #[trigger] built(before, after, plans, name, ids);
        crate::solid::lemma_singleton(ids.solid);
        assert(seq![ids.solid][0] == ids.solid);
        assert(!before.solids.dom().contains(seq![ids.solid][0]));
        assert(after.solids.dom() =~= before.solids.dom().insert(ids.solid));
    }
}

/// How many of the rebuilt solids have faces.
pub open spec fn rebuilt_count(all: Seq<Rebuild>) -> nat
    decreases all.len(),
{
    if all.len() == 0 {
        0
    } else {
        rebuilt_count(all.drop_last()) + (if all.last().plans.len() == 0 {
            0nat
        } else {
            1
        })
    }
}

proof fn lemma_rebuilt_solids(before: Model, after: Model, all: Seq<Rebuild>)
    requires
        rebuilt(before, after, all),
        before.solids.dom().finite(),
    ensures
        forall|id: SolidId| #[trigger]
            before.solids.dom().contains(id) ==> after.solids.dom().contains(id)
                && after.solids[id] == before.solids[id],
        after.solids.dom().finite(),
        after.solids.dom().len() == before.solids.dom().len() + rebuilt_count(all),
    decreases all.len(),
{
    if all.len() > 0 {
        let mid = choose|mid: Model|
            rebuilt(before, mid, all.drop_last()) && #[trigger] materialised(
                mid,
                after,
                all.last().plans,
                all.last().name,
            );
        lemma_rebuilt_solids(before, mid, all.drop_last());
        lemma_materialised_solids(mid, after, all.last().plans, all.last().name);
    }
}

/// Whether one of the first `k` solids has the id and does not stay.
spec fn goes(
    model: Model,
    ids: Seq<SolidId>,
    probes: Seq<Vec<FaceProbe>>,
    k: int,
    id: SolidId,
) -> bool {
    exists|j: int|
        0 <= j < k && #[trigger] ids[j] == id && !(fate(
            solid_tally(model, ids[j], probes[j]@),
        ) is Unchanged)
}

proof fn lemma_removed(
    model: Model,
    ids: Seq<SolidId>,
    probes: Seq<Vec<FaceProbe>>,
    k: int,
)
    requires
        ids.no_duplicates(),
        0 <= k <= ids.len(),
    ensures
        removed(model, ids, probes, k).no_duplicates(),
        forall|i: int|
            0 <= i < removed(model, ids, probes, k).len() ==> goes(
                model,
                ids,
                probes,
                k,
                #[trigger] removed(model, ids, probes, k)[i],
            ),
    decreases k,
{
    if k > 0 {
        let rest = removed(model, ids, probes, k - 1);
        let all = removed(model, ids, probes, k);
        lemma_removed(model, ids, probes, k - 1);
        assert forall|i: int| 0 <= i < all.len() implies goes(
            model,
            ids,
            probes,
            k,
            #[trigger] all[i],
        ) by {
            if i < rest.len() {
                assert(goes(model, ids, probes, k - 1, rest[i]));
            } else {
                assert(ids[k - 1] == all[i]);
            }
        }
        if !(fate(solid_tally(model, ids[k - 1], probes[k - 1]@)) is Unchanged) {
            assert forall|i: int| 0 <= i < rest.len() implies rest[i] != ids[k - 1] by {
                assert(goes(model, ids, probes, k - 1, rest[i]));
            }
        }
    }
}

/// A cut leaves every solid alone whose fate it is to stay, and the number of
/// solids afterwards is that of the ones that stay and of the rebuilt ones
/// that have faces.
pub proof fn law_cut_solids(brep: BRep, after: Model, probes: Seq<Vec<FaceProbe>>, k: int)
    requires
        brep.wf(),
        all_probes_fit(brep@, probes),
        ({
            let ids = key_order(brep@.solids.dom());
            rebuilt(
                without_solids(brep@, removed(brep@, ids, probes, ids.len() as int)),
                after,
                rebuilds(brep@, ids, probes, ids.len() as int),
            )
        }),
        0 <= k < key_order(brep@.solids.dom()).len(),
    ensures
        ({
            let ids = key_order(brep@.solids.dom());
            let n = ids.len() as int;
            &&& fate(solid_tally(brep@, ids[k], probes[k]@)) is Unchanged
                ==> after.solids.dom().contains(ids[k]) && after.solids[ids[k]]
                == brep@.solids[ids[k]]
            &&& after.solids.dom().len() + removed(brep@, ids, probes, n).len()
                == brep@.solids.dom().len() + rebuilt_count(rebuilds(brep@, ids, probes, n))
        }),
{
    let ids = key_order(brep@.solids.dom());
    let n = ids.len() as int;
    brep.solids.lemma_key_order();
    crate::arena::lemma_in_order_distinct(ids);
    brep.solids.lemma_finite();
    let gone = removed(brep@, ids, probes, n);
    lemma_removed(brep@, ids, probes, n);
    let start = without_solids(brep@, gone);
    gone.unique_seq_to_set();
    assert(gone.to_set().subset_of(brep@.solids.dom())) by {
        assert forall|id: SolidId| gone.to_set().contains(id) implies brep@.solids.dom().contains(
            id,
        ) by {
            let i = choose|i: int| 0 <= i < gone.len() && gone[i] == id;
            assert(goes(brep@, ids, probes, n, gone[i]));
            let j = choose|j: int| 0 <= j < n && #[trigger] ids[j] == gone[i];
            assert(ids.to_set().contains(ids[j]));
        }
    }
    assert(start.solids.dom() =~= brep@.solids.dom().difference(gone.to_set()));
    vstd::set_lib::lemma_len_subset(gone.to_set(), brep@.solids.dom());
    vstd::set_lib::lemma_set_disjoint_lens(start.solids.dom(), gone.to_set());
    assert(start.solids.dom() + gone.to_set() =~= brep@.solids.dom());
    lemma_rebuilt_solids(start, after, rebuilds(brep@, ids, probes, n));
    if fate(solid_tally(brep@, ids[k], probes[k]@)) is Unchanged {
        assert(ids.to_set().contains(ids[k]));
        if gone.to_set().contains(ids[k]) {
            let i = choose|i: int| 0 <= i < gone.len() && gone[i] == ids[k];
            assert(goes(brep@, ids, probes, n, gone[i]));
        }
        assert(start.solids.dom().contains(ids[k]));
    }
}

proof fn lemma_removed_has(
    model: Model,
    ids: Seq<SolidId>,
    probes: Seq<Vec<FaceProbe>>,
    n: int,
    k: int,
)
    requires
        0 <= k < n <= ids.len(),
        !(fate(solid_tally(model, ids[k], probes[k]@)) is Unchanged),
    ensures
        removed(model, ids, probes, n).contains(ids[k]),
    decreases n,
{
    let all = removed(model, ids, probes, n);
    if k == n - 1 {
        assert(all[all.len() - 1] == ids[k]);
    } else {
        let rest = removed(model, ids, probes, n - 1);
        lemma_removed_has(model, ids, probes, n - 1, k);
        let i = choose|i: int| 0 <= i < rest.len() && rest[i] == ids[k];
        assert(all[i] == ids[k]);
    }
}

/// A cut gives no id of a solid that was there to a new one: an id that names a
/// solid before and after names one that stayed as it was.
pub proof fn law_cut_reuses_no_id(
    brep: BRep,
    after: Model,
    probes: Seq<Vec<FaceProbe>>,
    id: SolidId,
)
    requires
        brep.wf(),
        all_probes_fit(brep@, probes),
        ({
            let ids = key_order(brep@.solids.dom());
            let gone = removed(brep@, ids, probes, ids.len() as int);
            &&& rebuilt(
                without_solids(brep@, gone),
                after,
                rebuilds(brep@, ids, probes, ids.len() as int),
            )
            &&& forall|g: SolidId|
                gone.contains(g) ==> !(#[trigger] after.solids.dom().contains(g))
        }),
        brep@.solids.dom().contains(id),
        after.solids.dom().contains(id),
    ensures
        after.solids[id] == brep@.solids[id],
        exists|k: int|
            0 <= k < key_order(brep@.solids.dom()).len() && #[trigger] key_order(
                brep@.solids.dom(),
            )[k] == id && fate(solid_tally(brep@, id, probes[k]@)) is Unchanged,
{
    let ids = key_order(brep@.solids.dom());
    let n = ids.len() as int;
    brep.solids.lemma_key_order();
    assert(ids.to_set().contains(id));
    let k = choose|k: int| 0 <= k < ids.len() && ids[k] == id;
    if !(fate(solid_tally(brep@, ids[k], probes[k]@)) is Unchanged) {
        lemma_removed_has(brep@, ids, probes, n, k);
    }
    law_cut_solids(brep, after, probes, k);
}

} // verus!
