//! What a cut leaves of faces and solids, by how far they are from the plane.

use vstd::prelude::*;

use crate::brep::Model;
use crate::cut::{
    band_plans, copy_plans, cylinder_outcome, fate, fits, greatest, is_band, least,
    lemma_shell_faces, lemma_tally_copied, other_outcome, rebuild, rebuilds, removed, signed_range,
    solid_tally, tally, visited, wave_range, CylinderOutcome, CylinderProbe, FaceProbe, WaveMeasure,
};
use crate::entities::{ExtentView, Face, FaceBoundary, FaceExtent, FaceGeom, FaceNormal};
use crate::geometry::CylSurf;
use crate::ids::{FaceId, SolidId};
use crate::scalar::{larger, smaller, Real};
use crate::solid::{name_view, PlanView};

verus! {

/// Whether a cylinder runs along the plane: the cosine between its axis and the
/// plane's normal is below 0.05.
pub open spec fn runs_along(probe: CylinderProbe) -> bool {
    probe.axis_cos.unsigned().below(Real { bits: 0x3fa999999999999a })
}

/// Whether a distance is that of something kept: at least -1e-6.
pub open spec fn on_kept_side(distance: Real) -> bool {
    (Real { bits: 0xbeb0c6f7a0b5ed8d }).at_most(distance)
}

/// Whether the ends of a cylinder are equally far from the plane, to 1e-12.
pub open spec fn level(probe: CylinderProbe) -> bool {
    probe.climb.unsigned().below(Real { bits: 0x3d719799812dea11 })
}

/// A cylinder along the plane is kept whole only if the distance of its axis is
/// at least its radius, less the tolerance; it is dropped only if it is that far
/// on the other side; between the two it is cut along its axis.
pub proof fn law_cylinder_along_the_plane(probe: CylinderProbe)
    requires
        runs_along(probe),
    ensures
        cylinder_outcome(probe) is EntirelyKept <==> probe.kept_from.at_most(probe.start_distance),
        cylinder_outcome(probe) is EntirelyDiscarded <==> !probe.kept_from.at_most(
            probe.start_distance,
        ) && probe.start_distance.at_most(probe.dropped_to),
        probe.dropped_to.below(probe.start_distance) && probe.start_distance.below(probe.kept_from)
            ==> cylinder_outcome(probe) is LateralCut,
        cylinder_outcome(probe) is EntirelyKept || cylinder_outcome(probe) is EntirelyDiscarded
            || cylinder_outcome(probe) is LateralCut,
{
}

/// A cylinder that does not run along the plane is kept whole if both ends are
/// on the kept side, dropped if neither is, and otherwise loses the end that is
/// not; only where both ends are equally far from the plane does it stay.
pub proof fn law_cylinder_across_the_plane(probe: CylinderProbe)
    requires
        !runs_along(probe),
    ensures
        ({
            let s = on_kept_side(probe.start_distance);
            let e = on_kept_side(probe.end_distance);
            &&& s && e ==> cylinder_outcome(probe) is EntirelyKept
            &&& !s && !e ==> cylinder_outcome(probe) is EntirelyDiscarded
            &&& s && !e && !level(probe) ==> cylinder_outcome(probe) is EndCut
            &&& !s && e && !level(probe) ==> cylinder_outcome(probe) is StartCut
            &&& s != e && level(probe) ==> cylinder_outcome(probe) is EntirelyKept
        }),
{
}

/// Whether a plan is of a full cylinder between two boundaries.
pub open spec fn is_tube(
    plan: PlanView,
    cyl: CylSurf,
    length: Real,
    start: FaceBoundary,
    end: FaceBoundary,
) -> bool {
    &&& plan.geom == FaceGeom::Cylinder(cyl)
    &&& plan.normal is Same
    &&& plan.extent matches ExtentView::Plain(extent) && extent matches FaceExtent::Cylinder {
        length: l,
        start: s,
        end: e,
    } && l == length && s == start && e == end
}

/// A cylinder that is kept stays the face it was; of one that is dropped nothing
/// is left.
pub proof fn law_whole_cylinders(
    cyl: CylSurf,
    length: Real,
    start: FaceBoundary,
    end: FaceBoundary,
    probe: CylinderProbe,
)
    ensures
        cylinder_outcome(probe) is EntirelyKept ==> band_plans(
            cyl,
            length,
            start,
            end,
            probe,
        ).len() == 1 && is_tube(
            band_plans(cyl, length, start, end, probe)[0],
            cyl,
            length,
            start,
            end,
        ),
        cylinder_outcome(probe) is EntirelyDiscarded ==> band_plans(
            cyl,
            length,
            start,
            end,
            probe,
        ).len() == 0,
{
}

/// A cylinder that is cut across its axis keeps the boundary at the end that is
/// left, ends in the circle of the cut at the other, and gets a disk of its own
/// radius over the cut.
pub proof fn law_cylinders_cut_across(
    cyl: CylSurf,
    length: Real,
    start: FaceBoundary,
    end: FaceBoundary,
    probe: CylinderProbe,
)
    ensures
        ({
            let plans = band_plans(cyl, length, start, end, probe);
            let last = plans.last();
            &&& cylinder_outcome(probe) is EndCut && probe.without_end.band is Some ==> {
                let left = probe.without_end;
                &&& plans.len() == 2
                &&& is_tube(
                    plans[0],
                    (left.band->0).0,
                    (left.band->0).1,
                    start,
                    FaceBoundary::Circle(left.circle),
                )
                &&& plans[1].geom == FaceGeom::Plane(left.cap)
                &&& plans[1].normal is Same
                &&& plans[1].extent == ExtentView::Plain(FaceExtent::Disk { radius: cyl.radius })
            }
            &&& cylinder_outcome(probe) is StartCut && probe.without_start.band is Some ==> {
                let left = probe.without_start;
                &&& plans.len() == 2
                &&& is_tube(
                    plans[0],
                    (left.band->0).0,
                    (left.band->0).1,
                    FaceBoundary::Circle(left.circle),
                    end,
                )
                &&& plans[1].geom == FaceGeom::Plane(left.cap)
                &&& plans[1].normal is Same
                &&& plans[1].extent == ExtentView::Plain(FaceExtent::Disk { radius: cyl.radius })
            }
        }),
{
}

/// Whether a plan is of a part of a disk, as far to one side as to the other.
pub open spec fn is_segment(
    plan: PlanView,
    plane: crate::geometry::Plane3,
    radius: Real,
    half: Real,
) -> bool {
    &&& plan.geom == FaceGeom::Plane(plane)
    &&& plan.normal is Same
    &&& plan.extent matches ExtentView::Plain(extent) && extent matches FaceExtent::PartialDisk {
        radius: r,
        start_angle,
        end_angle,
    } && r == radius && end_angle == half && start_angle == half.negated()
}

/// A cylinder that is cut along its axis leaves an arc of it, as far to one side
/// of the plane's normal as to the other, a flat side between the four corners of
/// the cut, and a part of a disk of its own radius at either end.
pub proof fn law_cylinders_cut_along(
    cyl: CylSurf,
    length: Real,
    start: FaceBoundary,
    end: FaceBoundary,
    probe: CylinderProbe,
)
    requires
        cylinder_outcome(probe) is LateralCut,
        probe.lateral.band is Some,
        probe.lateral.caps is Some,
    ensures
        ({
            let plans = band_plans(cyl, length, start, end, probe);
            let left = probe.lateral;
            let caps = left.caps->0;
            &&& plans.len() == 4
            &&& plans[0].geom == FaceGeom::Cylinder((left.band->0).0)
            &&& plans[0].normal is Same
            &&& plans[0].extent matches ExtentView::Plain(extent)
                && extent matches FaceExtent::PartialCylinder {
                length: l,
                arc_start_angle,
                arc_end_angle,
                arc_ref_dir,
            } && l == (left.band->0).1 && arc_end_angle == left.half_angle && arc_start_angle
                == left.half_angle.negated() && arc_ref_dir == left.up
            &&& plans[1].geom == FaceGeom::Plane(caps.chord)
            &&& plans[1].normal is Same
            &&& plans[1].extent matches ExtentView::Polygon(points) && points.len() == 4
                && points[0] == caps.corners.0 && points[1] == caps.corners.1 && points[2]
                == caps.corners.2 && points[3] == caps.corners.3
            &&& is_segment(plans[2], caps.start, cyl.radius, left.half_angle)
            &&& is_segment(plans[3], caps.end, cyl.radius, left.half_angle)
        }),
{
}

/// Where nothing of a cut cylinder is left but its cut, the cut is still closed:
/// by a disk across it, or by a flat side and parts of disks along it.
pub proof fn law_cuts_are_closed_without_a_tube(
    cyl: CylSurf,
    length: Real,
    start: FaceBoundary,
    end: FaceBoundary,
    probe: CylinderProbe,
)
    ensures
        ({
            let plans = band_plans(cyl, length, start, end, probe);
            let left = probe.lateral;
            &&& cylinder_outcome(probe) is EndCut && probe.without_end.band is None ==> plans.len()
                == 1 && plans[0].geom == FaceGeom::Plane(probe.without_end.cap) && plans[0].normal
                is Same && plans[0].extent == ExtentView::Plain(
                FaceExtent::Disk { radius: cyl.radius },
            )
            &&& cylinder_outcome(probe) is StartCut && probe.without_start.band is None
                ==> plans.len() == 1 && plans[0].geom == FaceGeom::Plane(probe.without_start.cap)
                && plans[0].normal is Same && plans[0].extent == ExtentView::Plain(
                FaceExtent::Disk { radius: cyl.radius },
            )
            &&& cylinder_outcome(probe) is LateralCut ==> {
                &&& plans.len() == (if left.band is Some {
                    1int
                } else {
                    0
                }) + (if left.caps is Some {
                    3int
                } else {
                    0
                })
                &&& left.band is None && left.caps is Some ==> {
                    let caps = left.caps->0;
                    &&& plans[0].geom == FaceGeom::Plane(caps.chord)
                    &&& is_segment(plans[1], caps.start, cyl.radius, left.half_angle)
                    &&& is_segment(plans[2], caps.end, cyl.radius, left.half_angle)
                }
                &&& left.band is Some ==> plans[0].geom == FaceGeom::Cylinder((left.band->0).0)
            }
        }),
{
}

/// A solid that is rebuilt keeps its name.
pub proof fn law_rebuilt_solids_keep_their_name(
    model: Model,
    solid: SolidId,
    probes: Seq<FaceProbe>,
)
    ensures
        model.solids[solid].name is None ==> rebuild(model, solid, probes).name is None,
        model.solids[solid].name matches Some(n) ==> rebuild(model, solid, probes).name == Some(
            n@,
        ),
{
}

/// The solids that go are those that do not stay unchanged, in turn; those that
/// come back are rebuilt of what is left of those that are to be replaced.
pub proof fn law_changed_solids_go(
    model: Model,
    ids: Seq<SolidId>,
    probes: Seq<Vec<FaceProbe>>,
    k: int,
    s: SolidId,
)
    requires
        0 <= k <= ids.len(),
    ensures
        removed(model, ids, probes, k).contains(s) <==> exists|i: int|
            0 <= i < k && #[trigger] ids[i] == s && !(fate(solid_tally(model, ids[i], probes[i]@))
                is Unchanged),
        forall|i: int|
            0 <= i < k && fate(solid_tally(model, #[trigger] ids[i], probes[i]@)) is Replace
                ==> rebuilds(model, ids, probes, k).contains(rebuild(model, ids[i], probes[i]@)),
        rebuilds(model, ids, probes, k).len() <= removed(model, ids, probes, k).len(),
    decreases k,
{
    if k > 0 {
        law_changed_solids_go(model, ids, probes, k - 1, s);
        let was = removed(model, ids, probes, k - 1);
        let now = removed(model, ids, probes, k);
        let gone = !(fate(solid_tally(model, ids[k - 1], probes[k - 1]@)) is Unchanged);
        if was.contains(s) {
            let i = choose|i: int| 0 <= i < was.len() && was[i] == s;
            assert(now[i] == s);
        }
        if gone && ids[k - 1] == s {
            assert(now.last() == s);
        }
        if now.contains(s) {
            let i = choose|i: int| 0 <= i < now.len() && now[i] == s;
            if i < was.len() {
                assert(was[i] == s);
            } else {
                assert(ids[k - 1] == s && gone);
            }
        }
        let old_built = rebuilds(model, ids, probes, k - 1);
        let new_built = rebuilds(model, ids, probes, k);
        assert forall|i: int|
            0 <= i < k && fate(solid_tally(model, #[trigger] ids[i], probes[i]@))
                is Replace implies new_built.contains(rebuild(model, ids[i], probes[i]@)) by {
            let r = rebuild(model, ids[i], probes[i]@);
            if i < k - 1 {
                assert(old_built.contains(r));
                let j = choose|j: int| 0 <= j < old_built.len() && old_built[j] == r;
                assert(new_built[j] == r);
            } else {
                assert(new_built.last() == r);
            }
        }
    }
}

/// A number that is below another below all of some is below them.
proof fn lemma_least(numbers: Seq<Real>, k: int, floor: Real)
    requires
        0 <= k <= numbers.len(),
        forall|i: int| 0 <= i < numbers.len() ==> !(#[trigger] numbers[i]).nan(),
        floor.at_most(Real { bits: 0x7fefffffffffffff }),
    ensures
        !least(numbers, k).nan(),
        floor.at_most(least(numbers, k)) <==> forall|i: int|
            0 <= i < k ==> floor.at_most(#[trigger] numbers[i]),
    decreases k,
{
    if k > 0 {
        lemma_least(numbers, k - 1, floor);
        assert(!numbers[k - 1].nan());
    }
}

proof fn lemma_greatest(numbers: Seq<Real>, k: int, roof: Real)
    requires
        0 <= k <= numbers.len(),
        forall|i: int| 0 <= i < numbers.len() ==> !(#[trigger] numbers[i]).nan(),
        (Real { bits: 0xffefffffffffffff }).at_most(roof),
    ensures
        !greatest(numbers, k).nan(),
        greatest(numbers, k).at_most(roof) <==> forall|i: int|
            0 <= i < k ==> (#[trigger] numbers[i]).at_most(roof),
    decreases k,
{
    if k > 0 {
        lemma_greatest(numbers, k - 1, roof);
        assert(!numbers[k - 1].nan());
    }
}

/// A polygon is kept if all its corners are on the kept side, dropped if none is
/// more than 1e-6 into it, and straddles the plane otherwise.
pub proof fn law_polygons_go_by_their_corners(face: Face, probe: FaceProbe)
    requires
        fits(face, probe),
        face.geom is Plane,
        face.extent is Polygon,
        face.extent->points@.len() > 0,
        forall|i: int| 0 <= i < probe.corners@.len() ==> !(#[trigger] probe.corners@[i]).nan(),
    ensures
        ({
            let up = forall|i: int|
                0 <= i < probe.corners@.len() ==> on_kept_side(#[trigger] probe.corners@[i]);
            let down = forall|i: int|
                0 <= i < probe.corners@.len() ==> (#[trigger] probe.corners@[i]).at_most(
                    Real { bits: 0x3eb0c6f7a0b5ed8d },
                );
            &&& other_outcome(face, probe) is Kept <==> up
            &&& other_outcome(face, probe) is Dropped <==> !up && down
            &&& other_outcome(face, probe) is Straddling <==> !up && !down
        }),
{
    let n = probe.corners@.len() as int;
    lemma_least(probe.corners@, n, Real { bits: 0xbeb0c6f7a0b5ed8d });
    lemma_greatest(probe.corners@, n, Real { bits: 0x3eb0c6f7a0b5ed8d });
}

/// Whether a face has a region of its own whose distances are measured: a band or
/// an arc of a cylinder, a disk or a part of one, a plane inside a circle, a bend
/// of a torus, or any part of a sphere.
pub open spec fn has_region(face: Face) -> bool {
    match face.geom {
        FaceGeom::Cylinder(_) => face.extent is Cylinder || face.extent is PartialCylinder
            || face.extent is CylinderArcFace,
        FaceGeom::Plane(_) => face.extent is Disk || face.extent is PartialDisk || (
        face.extent matches FaceExtent::PlanarBoundary { boundary } && boundary is Circle),
        FaceGeom::Torus(_) => face.extent is TorusFillet,
        FaceGeom::Sphere(_) => true,
    }
}

/// A face with a region is kept if all of it is on the kept side, dropped if none
/// of it is more than 1e-6 into it, and straddles the plane otherwise.
pub proof fn law_faces_go_by_their_region(face: Face, probe: FaceProbe)
    requires
        has_region(face),
    ensures
        other_outcome(face, probe) is Kept <==> on_kept_side(probe.low),
        other_outcome(face, probe) is Dropped <==> !on_kept_side(probe.low) && probe.high.at_most(
            Real { bits: 0x3eb0c6f7a0b5ed8d },
        ),
        signed_range(face, probe) == Some((probe.low, probe.high)),
{
}

/// A face without a region goes by its carrier's own point.
pub proof fn law_other_faces_go_by_their_carrier(face: Face, probe: FaceProbe)
    requires
        !has_region(face),
        !(face.geom is Plane && face.extent is Polygon && face.extent->points@.len() > 0),
    ensures
        other_outcome(face, probe) is Kept <==> on_kept_side(probe.carrier),
        other_outcome(face, probe) is Dropped <==> !on_kept_side(probe.carrier),
{
}

/// Whether a face is a full cylinder that is kept whole.
pub open spec fn kept_band(face: Face, probe: FaceProbe) -> bool {
    is_full_cylinder(face) && cylinder_outcome(probe.cylinder->0) is EntirelyKept
}

/// Whether a face is a full cylinder that is dropped.
pub open spec fn dropped_band(face: Face, probe: FaceProbe) -> bool {
    is_full_cylinder(face) && cylinder_outcome(probe.cylinder->0) is EntirelyDiscarded
}

/// Whether a face is a full cylinder.
pub open spec fn is_full_cylinder(face: Face) -> bool {
    face.geom is Cylinder && face.extent is Cylinder
}

proof fn lemma_counts(
    faces: Map<FaceId, Face>,
    ids: Seq<FaceId>,
    probes: Seq<FaceProbe>,
    k: int,
)
    requires
        0 <= k <= ids.len(),
        probes.len() == ids.len(),
    ensures
        ({
            let t = tally(faces, ids, probes, k);
            &&& 0 <= t.kept <= t.bands
            &&& 0 <= t.dropped <= t.bands
            &&& t.bands == 0 <==> forall|i: int|
                0 <= i < k ==> !is_full_cylinder(faces[#[trigger] ids[i]])
            &&& t.kept == t.bands <==> forall|i: int|
                0 <= i < k && is_full_cylinder(faces[#[trigger] ids[i]]) ==> kept_band(
                    faces[ids[i]],
                    probes[i],
                )
            &&& t.dropped == t.bands <==> forall|i: int|
                0 <= i < k && is_full_cylinder(faces[#[trigger] ids[i]]) ==> dropped_band(
                    faces[ids[i]],
                    probes[i],
                )
        }),
    decreases k,
{
    if k > 0 {
        lemma_counts(faces, ids, probes, k - 1);
        let face = faces[ids[k - 1]];
        let was = tally(faces, ids, probes, k - 1);
        let now = tally(faces, ids, probes, k);
        if is_full_cylinder(face) {
            if now.kept == now.bands {
                assert(was.kept == was.bands);
            }
            if now.dropped == now.bands {
                assert(was.dropped == was.bands);
            }
            assert(now.bands > 0);
            assert(is_full_cylinder(faces[ids[k - 1]]));
        }
    }
}

/// A solid goes exactly if it has full cylinders and all of them are dropped; it
/// stays as it is if it has none, or all of them are kept; any other is rebuilt.
pub proof fn law_solids_go_by_their_cylinders(
    model: Model,
    solid: SolidId,
    probes: Seq<FaceProbe>,
)
    requires
        probes.len() == visited(model, solid).len(),
    ensures
        ({
            let ids = visited(model, solid);
            let any = exists|i: int|
                0 <= i < ids.len() && is_full_cylinder(model.faces[#[trigger] ids[i]]);
            let all_dropped = forall|i: int|
                0 <= i < ids.len() && is_full_cylinder(model.faces[#[trigger] ids[i]])
                    ==> dropped_band(model.faces[ids[i]], probes[i]);
            let all_kept = forall|i: int|
                0 <= i < ids.len() && is_full_cylinder(model.faces[#[trigger] ids[i]])
                    ==> kept_band(model.faces[ids[i]], probes[i]);
            let what = fate(solid_tally(model, solid, probes));
            &&& what is Drop <==> any && all_dropped
            &&& what is Unchanged <==> !any || all_kept
            &&& what is Replace <==> any && !all_dropped && !all_kept
        }),
{
    let ids = visited(model, solid);
    lemma_counts(model.faces, ids, probes, ids.len() as int);
    let t = solid_tally(model, solid, probes);
    if t.bands > 0 {
        let i = choose|i: int|
            0 <= i < ids.len() && is_full_cylinder(model.faces[#[trigger] ids[i]]);
        assert(is_full_cylinder(model.faces[ids[i]]));
    }
}

/// Where the plans of a face stand among those that a solid is rebuilt from.
proof fn lemma_plans_grow(
    faces: Map<FaceId, Face>,
    ids: Seq<FaceId>,
    probes: Seq<FaceProbe>,
    j: int,
    k: int,
)
    requires
        0 <= j <= k,
    ensures
        tally(faces, ids, probes, j).plans.len() <= tally(faces, ids, probes, k).plans.len(),
        tally(faces, ids, probes, k).plans.take(
            tally(faces, ids, probes, j).plans.len() as int,
        ) == tally(faces, ids, probes, j).plans,
    decreases k - j,
{
    let was = tally(faces, ids, probes, j).plans;
    let now = tally(faces, ids, probes, k).plans;
    if j < k {
        lemma_plans_grow(faces, ids, probes, j, k - 1);
        let mid = tally(faces, ids, probes, k - 1).plans;
        assert(now.take(was.len() as int) =~= mid.take(was.len() as int));
    } else {
        assert(now.take(was.len() as int) =~= was);
    }
}

/// A solid that is rebuilt has what is left of each of its full cylinders: the
/// faces of the solid are gone through in turn, and those of each come together.
pub proof fn law_what_is_left_is_rebuilt(
    model: Model,
    solid: SolidId,
    probes: Seq<FaceProbe>,
    k: int,
    p: int,
)
    requires
        probes.len() == visited(model, solid).len(),
        0 <= k < probes.len(),
        is_full_cylinder(model.faces[visited(model, solid)[k]]),
        ({
            let face = model.faces[visited(model, solid)[k]];
            0 <= p < band_plans(
                face.geom->Cylinder_0,
                face.extent->Cylinder_length,
                face.extent->Cylinder_start,
                face.extent->Cylinder_end,
                probes[k].cylinder->0,
            ).len()
        }),
    ensures
        ({
            let face = model.faces[visited(model, solid)[k]];
            rebuild(model, solid, probes).plans.contains(
                band_plans(
                    face.geom->Cylinder_0,
                    face.extent->Cylinder_length,
                    face.extent->Cylinder_start,
                    face.extent->Cylinder_end,
                    probes[k].cylinder->0,
                )[p],
            )
        }),
{
    let ids = visited(model, solid);
    let n = ids.len() as int;
    let face = model.faces[ids[k]];
    let more = band_plans(
        face.geom->Cylinder_0,
        face.extent->Cylinder_length,
        face.extent->Cylinder_start,
        face.extent->Cylinder_end,
        probes[k].cylinder->0,
    );
    let was = tally(model.faces, ids, probes, k).plans;
    let next = tally(model.faces, ids, probes, k + 1).plans;
    let all = tally(model.faces, ids, probes, n).plans;
    let whole = rebuild(model, solid, probes).plans;
    lemma_plans_grow(model.faces, ids, probes, k + 1, n);
    assert(next == was + more);
    assert(next[was.len() + p] == more[p]);
    assert(all.take(next.len() as int)[was.len() + p] == next[was.len() + p]);
    assert(whole[was.len() + p] == more[p]);
}

/// Whether a face that is no full cylinder comes along when a solid is rebuilt.
pub open spec fn comes_along(face: Face, probe: FaceProbe) -> bool {
    !is_full_cylinder(face) && !(other_outcome(face, probe) is Dropped)
}

proof fn lemma_copied(
    faces: Map<FaceId, Face>,
    ids: Seq<FaceId>,
    probes: Seq<FaceProbe>,
    k: int,
    id: FaceId,
)
    requires
        0 <= k <= ids.len(),
        probes.len() == ids.len(),
    ensures
        tally(faces, ids, probes, k).copied.contains(id) <==> exists|i: int|
            0 <= i < k && #[trigger] ids[i] == id && comes_along(faces[id], probes[i]),
    decreases k,
{
    if k > 0 {
        lemma_copied(faces, ids, probes, k - 1, id);
        let was = tally(faces, ids, probes, k - 1).copied;
        let now = tally(faces, ids, probes, k).copied;
        let last = ids[k - 1];
        if comes_along(faces[last], probes[k - 1]) {
            assert(now == was.push(last));
            assert(now[was.len() as int] == last);
            if was.contains(id) {
                let i = choose|i: int| 0 <= i < was.len() && was[i] == id;
                assert(now[i] == id);
            }
            if now.contains(id) {
                let i = choose|i: int| 0 <= i < now.len() && now[i] == id;
                if i < was.len() {
                    assert(was[i] == id);
                } else {
                    assert(ids[k - 1] == id);
                }
            }
        } else {
            assert(now == was);
        }
        if was.contains(id) {
            let i = choose|i: int|
                0 <= i < k - 1 && #[trigger] ids[i] == id && comes_along(faces[id], probes[i]);
            assert(ids[i] == id);
        }
    }
}

/// Of the faces of a solid that are no full cylinders, those that are kept or
/// straddle the plane come along when it is rebuilt, and no others.
pub proof fn law_other_faces_come_along(
    model: Model,
    solid: SolidId,
    probes: Seq<FaceProbe>,
    id: FaceId,
)
    requires
        probes.len() == visited(model, solid).len(),
    ensures
        solid_tally(model, solid, probes).copied.contains(id) <==> exists|i: int|
            0 <= i < probes.len() && #[trigger] visited(model, solid)[i] == id && comes_along(
                model.faces[id],
                probes[i],
            ),
{
    let ids = visited(model, solid);
    lemma_copied(model.faces, ids, probes, ids.len() as int, id);
}

/// A copy of a face is on the same surface, looks the same way and reaches as
/// far; copies come after what is left of the cylinders, in turn.
pub proof fn law_copies_are_the_same(
    model: Model,
    solid: SolidId,
    probes: Seq<FaceProbe>,
    i: int,
)
    requires
        0 <= i < solid_tally(model, solid, probes).copied.len(),
    ensures
        ({
            let t = solid_tally(model, solid, probes);
            let whole = rebuild(model, solid, probes);
            let copy = whole.plans[t.plans.len() + i];
            let face = model.faces[t.copied[i]];
            &&& whole.plans.len() == t.plans.len() + t.copied.len()
            &&& whole.name == crate::solid::name_view(model.solids[solid].name)
            &&& copy.geom == face.geom
            &&& copy.normal == face.normal
            &&& copy.extent == face.extent@
        }),
{
    let t = solid_tally(model, solid, probes);
    let ids = visited(model, solid);
    if model.solids.dom().contains(solid) {
        lemma_shell_faces(model, model.solids[solid].shells@);
    }
    lemma_tally_copied(model.faces, ids, probes, ids.len() as int);
    lemma_copy_plans(model.faces, t.copied);
}

proof fn lemma_copy_plans(faces: Map<FaceId, Face>, ids: Seq<FaceId>)
    requires
        forall|j: int| 0 <= j < ids.len() ==> faces.dom().contains(#[trigger] ids[j]),
    ensures
        copy_plans(faces, ids).len() == ids.len(),
        forall|i: int|
            0 <= i < ids.len() ==> (#[trigger] copy_plans(faces, ids)[i]).geom
                == faces[ids[i]].geom && copy_plans(faces, ids)[i].normal == faces[ids[i]].normal
                && copy_plans(faces, ids)[i].extent == faces[ids[i]].extent@,
    decreases ids.len(),
{
    if ids.len() > 0 {
        let rest = ids.drop_last();
        assert(faces.dom().contains(ids[ids.len() - 1]));
        assert forall|j: int| 0 <= j < rest.len() implies faces.dom().contains(
            #[trigger] rest[j],
        ) by {
            assert(rest[j] == ids[j]);
        }
        lemma_copy_plans(faces, rest);
        assert forall|i: int| 0 <= i < ids.len() implies (#[trigger] copy_plans(
            faces,
            ids,
        )[i]).geom == faces[ids[i]].geom && copy_plans(faces, ids)[i].normal
            == faces[ids[i]].normal && copy_plans(faces, ids)[i].extent
            == faces[ids[i]].extent@ by {
            if i < rest.len() {
                assert(copy_plans(faces, ids)[i] == copy_plans(faces, rest)[i]);
                assert(rest[i] == ids[i]);
            }
        }
    }
}

/// The range of a wave over an interval: between the values at its ends and,
/// where a crest or a trough falls inside, the amplitude; all of a wave over a
/// full turn or more. It holds the values at the ends.
pub proof fn law_wave_range(wave: WaveMeasure)
    requires
        !wave.amplitude.below(Real { bits: 0x3cd203af9ee75616 }),
        !wave.at_low.nan(),
        !wave.at_high.nan(),
        !wave.amplitude.nan(),
        wave.at_low.at_most(wave.amplitude),
        wave.at_high.at_most(wave.amplitude),
        wave.amplitude.negated().at_most(wave.at_low),
        wave.amplitude.negated().at_most(wave.at_high),
    ensures
        ({
            let range = wave_range(wave);
            let turns = (Real { bits: 0x401921fb54442d18 }).at_most(wave.span);
            &&& range.0.at_most(wave.at_low) && wave.at_low.at_most(range.1)
            &&& range.0.at_most(wave.at_high) && wave.at_high.at_most(range.1)
            &&& turns || wave.crest.at_most(wave.high) ==> range.1.rank() == wave.amplitude.rank()
            &&& turns || wave.trough.at_most(wave.high) ==> range.0.rank()
                == -wave.amplitude.rank()
            &&& !turns && !wave.crest.at_most(wave.high) ==> range.1 == wave.at_low || range.1
                == wave.at_high
            &&& !turns && !wave.trough.at_most(wave.high) ==> range.0 == wave.at_low || range.0
                == wave.at_high
        }),
{
}

} // verus!
