//! What a file says of its faces and solids to whoever reads it.

use vstd::prelude::*;

use crate::bounds::{
    band_ring, circle_key, ellipse_key, face_bounds, flag, no_bounds, BoundarySheet, CircleSheet,
    EllipseSheet, Emitted, FaceSheet,
};
use crate::brep::Model;
use crate::cut::{live_faces, shell_faces, visited};
use crate::entities::{Face, FaceBoundary, FaceExtent, FaceGeom, Solid};
use crate::geometry::{Circle3, Ellipse3};
use crate::growth::{
    lemma_circle_curve, lemma_ellipse_bound, lemma_face_bounds,
};
use crate::ids::{FaceId, ShellId, SolidId};
use crate::reading::{
    also, done, face_text, is_circle, is_surface, law_surfaces_read_back, lemma_face_text, named,
    placed_text, places, says, Arg,
};
use crate::reading_bounds::{
    counted, is_closed_bound, is_edge, law_circle_bounds_read_back, law_circles_read_back,
    law_ellipse_bounds_read_back, law_ellipses_read_back,
};
use crate::reading_faces::{
    cap_goes_round, goes_on, has_ring, is_there, law_cylinder_patches_go_round,
    law_rings_go_round, law_rounded_rectangles_go_round, lemma_goes_chain, lemma_goes_self,
    lemma_says_on, patch_goes_round,
};
use crate::scalar::Real;
use crate::script::{Glyph, Script};
use crate::step::{StepCurveKey, StepState};
use crate::step_laws::{after, lines_stay};
use crate::writer::{shell_emitted, shells_emitted, solid_emitted};

verus! {

/// Whether a bound at `id` goes once round a closed boundary. Where the boundary
/// has no edge curve yet it gets one, along the boundary's own circle or ellipse,
/// and is gone round as asked; otherwise it is gone round against the first use.
pub open spec fn goes_round(
    s: StepState,
    t: StepState,
    id: int,
    boundary: FaceBoundary,
    sheet: BoundarySheet,
    outer: bool,
    orient: bool,
) -> bool {
    let start = if orient {
        1usize
    } else {
        0usize
    };
    let curve = s.counter as int + 5;
    match (boundary, sheet) {
        (FaceBoundary::Circle(c), BoundarySheet::Circle(sh)) => {
            let key = circle_key(sh);
            let seam = t.vertices[sh.seam.key];
            if s.edges.dom().contains(key) {
                is_closed_bound(t, id, outer, key, s.edges[key].1 == 0)
            } else {
                &&& is_closed_bound(t, id, outer, key, orient)
                &&& is_edge(t, key, seam, seam, curve, true, start)
                &&& is_circle(
                    t.lines,
                    curve,
                    c.frame.origin,
                    c.frame.z,
                    sh.x_dir,
                    c.radius,
                    ("c"@, "cn"@, "cx"@),
                )
            }
        },
        (FaceBoundary::Ellipse(e), BoundarySheet::Ellipse(sh)) => {
            let key = ellipse_key(sh);
            let seam = t.vertices[sh.seam.key];
            if s.edges.dom().contains(key) {
                is_closed_bound(t, id, outer, key, s.edges[key].1 == 0)
            } else {
                &&& is_closed_bound(t, id, outer, key, orient)
                &&& is_edge(t, key, seam, seam, curve, true, start)
                &&& says(
                    t.lines,
                    curve,
                    placed_text("ELLIPSE"@, curve - 1, seq![e.semi_major, e.semi_minor]),
                )
                &&& places(t.lines, curve - 1, e.frame, "ellipse_ax"@)
            }
        },
        _ => false,
    }
}

/// Whether a boundary is measured as what it is.
pub open spec fn same_kind(boundary: FaceBoundary, sheet: BoundarySheet) -> bool {
    boundary is Circle && sheet is Circle || boundary is Ellipse && sheet is Ellipse
}

proof fn lemma_goes_round(
    s: StepState,
    boundary: FaceBoundary,
    sheet: BoundarySheet,
    outer: bool,
    orient: bool,
)
    requires
        counted(s),
        same_kind(boundary, sheet),
        s.counter + 11 <= usize::MAX,
    ensures
        ({
            let t = s.boundary(boundary, sheet, outer, orient);
            &&& counted(t)
            &&& goes_on(s, t)
            &&& t.counter <= s.counter + 11
            &&& goes_round(s, t, t.counter as int, boundary, sheet, outer, orient)
        }),
{
    match (boundary, sheet) {
        (FaceBoundary::Circle(c), BoundarySheet::Circle(sh)) => {
            lemma_circle_round(s, c, sh, outer, orient);
        },
        (FaceBoundary::Ellipse(e), BoundarySheet::Ellipse(sh)) => {
            lemma_ellipse_round(s, e, sh, outer, orient);
        },
        _ => {},
    }
}

#[verifier::spinoff_prover]
#[verifier::rlimit(40)]
proof fn lemma_circle_round(
    s: StepState,
    c: Circle3,
    sh: CircleSheet,
    outer: bool,
    orient: bool,
)
    requires
        counted(s),
        s.counter + 11 <= usize::MAX,
    ensures
        ({
            let t = s.circle_bound(c.frame.origin, c.frame.z, c.radius, sh, outer, orient);
            &&& counted(t)
            &&& goes_on(s, t)
            &&& t.counter <= s.counter + 11
            &&& goes_round(
                s,
                t,
                t.counter as int,
                FaceBoundary::Circle(c),
                BoundarySheet::Circle(sh),
                outer,
                orient,
            )
        }),
{
    let t = s.circle_bound(c.frame.origin, c.frame.z, c.radius, sh, outer, orient);
    let made = s.circle_curve(c.frame.origin, c.frame.z, c.radius, sh, orient);
    law_circles_read_back(s, c.frame.origin, c.frame.z, c.radius, sh, orient);
    law_circle_bounds_read_back(s, c.frame.origin, c.frame.z, c.radius, sh, outer, orient);
    lemma_circle_curve(s, c.frame.origin, c.frame.z, c.radius, sh, orient);
    assert(goes_on(s, made));
    assert(made.counter <= s.counter + 8);
    assert(goes_on(made, t));
    lemma_goes_chain(s, made, t);
    lemma_kept_texts(made, t);
}

#[verifier::spinoff_prover]
#[verifier::rlimit(40)]
proof fn lemma_ellipse_round(
    s: StepState,
    e: Ellipse3,
    sh: EllipseSheet,
    outer: bool,
    orient: bool,
)
    requires
        counted(s),
        s.counter + 11 <= usize::MAX,
    ensures
        ({
            let t = s.ellipse_bound(e, sh, outer, orient);
            &&& counted(t)
            &&& goes_on(s, t)
            &&& t.counter <= s.counter + 11
            &&& goes_round(
                s,
                t,
                t.counter as int,
                FaceBoundary::Ellipse(e),
                BoundarySheet::Ellipse(sh),
                outer,
                orient,
            )
        }),
{
    let t = s.ellipse_bound(e, sh, outer, orient);
    let made = s.ellipse_curve(e, sh, orient);
    law_ellipses_read_back(s, e, sh, orient);
    law_ellipse_bounds_read_back(s, e, sh, outer, orient);
    lemma_ellipse_bound(s, e, sh, outer, orient);
    assert(after(s, t));
    assert(goes_on(s, t));
    assert(made.counter <= s.counter + 8);
    assert(goes_on(made, t));
    lemma_kept_texts(made, t);
}

proof fn lemma_kept_texts(s: StepState, t: StepState)
    requires
        goes_on(s, t),
    ensures
        forall|id: int, text: Seq<Glyph>| #[trigger] says(s.lines, id, text) ==> says(t.lines, id, text),
{
    assert forall|id: int, text: Seq<Glyph>| #[trigger] says(s.lines, id, text) implies says(
        t.lines,
        id,
        text,
    ) by {
        lemma_says_on(s, t, id, text);
    }
}

proof fn lemma_goes_round_on(
    s: StepState,
    t: StepState,
    u: StepState,
    id: int,
    boundary: FaceBoundary,
    sheet: BoundarySheet,
    outer: bool,
    orient: bool,
)
    requires
        goes_round(s, t, id, boundary, sheet, outer, orient),
        goes_on(t, u),
        sheet matches BoundarySheet::Circle(sh) ==> t.vertices.dom().contains(sh.seam.key)
            || s.edges.dom().contains(circle_key(sh)),
        sheet matches BoundarySheet::Ellipse(sh) ==> t.vertices.dom().contains(sh.seam.key)
            || s.edges.dom().contains(ellipse_key(sh)),
    ensures
        goes_round(s, u, id, boundary, sheet, outer, orient),
{
    lemma_kept_texts(t, u);
}

proof fn lemma_seam(
    s: StepState,
    boundary: FaceBoundary,
    sheet: BoundarySheet,
    outer: bool,
    orient: bool,
)
    requires
        same_kind(boundary, sheet),
    ensures
        ({
            let t = s.boundary(boundary, sheet, outer, orient);
            &&& sheet matches BoundarySheet::Circle(sh) ==> t.vertices.dom().contains(sh.seam.key)
                || s.edges.dom().contains(circle_key(sh))
            &&& sheet matches BoundarySheet::Ellipse(sh) ==> t.vertices.dom().contains(sh.seam.key)
                || s.edges.dom().contains(ellipse_key(sh))
        }),
{
}

/// Whether a face has two closed bounds: the outer one round its start, then an
/// inner one round its end, the other way.
pub open spec fn has_two_bounds(
    s: StepState,
    bounds: Emitted,
    start: FaceBoundary,
    start_sheet: BoundarySheet,
    end: FaceBoundary,
    end_sheet: BoundarySheet,
) -> bool {
    let t = bounds.state;
    &&& bounds.ids.len() == 2
    &&& goes_on(s, t)
    &&& goes_round(s, t, bounds.ids[0] as int, start, start_sheet, true, true)
    &&& exists|mid: StepState|
        goes_on(s, mid) && goes_on(mid, t) && #[trigger] goes_round(
            mid,
            t,
            bounds.ids[1] as int,
            end,
            end_sheet,
            false,
            false,
        )
}

/// Whether a face has one closed bound.
pub open spec fn has_one_bound(
    s: StepState,
    bounds: Emitted,
    boundary: FaceBoundary,
    sheet: BoundarySheet,
) -> bool {
    &&& bounds.ids.len() == 1
    &&& goes_on(s, bounds.state)
    &&& goes_round(s, bounds.state, bounds.ids[0] as int, boundary, sheet, true, true)
}

proof fn lemma_two(
    s: StepState,
    start: FaceBoundary,
    start_sheet: BoundarySheet,
    end: FaceBoundary,
    end_sheet: BoundarySheet,
)
    requires
        counted(s),
        same_kind(start, start_sheet),
        same_kind(end, end_sheet),
        s.counter + 22 <= usize::MAX,
    ensures
        ({
            let s1 = s.boundary(start, start_sheet, true, true);
            let s2 = s1.boundary(end, end_sheet, false, false);
            &&& counted(s2)
            &&& has_two_bounds(
                s,
                (Emitted { state: s2, ids: seq![s1.last(), s2.last()] }),
                start,
                start_sheet,
                end,
                end_sheet,
            )
        }),
{
    let s1 = s.boundary(start, start_sheet, true, true);
    let s2 = s1.boundary(end, end_sheet, false, false);
    lemma_goes_round(s, start, start_sheet, true, true);
    lemma_goes_round(s1, end, end_sheet, false, false);
    lemma_seam(s, start, start_sheet, true, true);
    lemma_goes_round_on(s, s1, s2, s1.counter as int, start, start_sheet, true, true);
    lemma_goes_chain(s, s1, s2);
    lemma_goes_self(s2);
}

/// A tube is bounded by its start and its end, a bend of a torus by the circles
/// at its start and its end: the first is the outer bound and gone round forward,
/// the second an inner one and gone round backward. A tube that is not on a
/// cylinder has no bounds.
pub proof fn law_tubes_and_bends_are_bounded(s: StepState, face: Face, sheet: FaceSheet)
    requires
        counted(s),
        s.counter + 22 <= usize::MAX,
    ensures
        face.extent matches FaceExtent::Cylinder { length, start, end } ==> (sheet matches
            FaceSheet::Two { start: a, end: b } ==> {
            &&& face.geom is Cylinder && same_kind(start, a) && same_kind(end, b)
                ==> has_two_bounds(s, face_bounds(s, face, sheet), start, a, end, b)
            &&& !(face.geom is Cylinder) ==> face_bounds(s, face, sheet) == no_bounds(s)
        }),
        face.extent matches FaceExtent::TorusFillet { start_circle, end_circle } ==> (sheet matches
            FaceSheet::Two { start: a, end: b } ==> (a is Circle && b is Circle ==> has_two_bounds(
            s,
            face_bounds(s, face, sheet),
            FaceBoundary::Circle(start_circle),
            a,
            FaceBoundary::Circle(end_circle),
            b,
        ))),
{
    match (face.extent, sheet) {
        (FaceExtent::Cylinder { length, start, end }, FaceSheet::Two { start: a, end: b }) => {
            if same_kind(start, a) && same_kind(end, b) {
                lemma_two(s, start, a, end, b);
            }
        },
        (
            FaceExtent::TorusFillet { start_circle, end_circle },
            FaceSheet::Two { start: a, end: b },
        ) => {
            if a is Circle && b is Circle {
                lemma_two(
                    s,
                    FaceBoundary::Circle(start_circle),
                    a,
                    FaceBoundary::Circle(end_circle),
                    b,
                );
            }
        },
        _ => {},
    }
}

/// A disk on a plane is bounded by the circle of its radius about the plane's
/// origin, across the plane's normal, and a planar face with a closed boundary by
/// that; on anything but a plane they have no bounds.
pub proof fn law_disks_are_bounded(s: StepState, face: Face, sheet: FaceSheet)
    requires
        counted(s),
        s.counter + 11 <= usize::MAX,
    ensures
        face.extent matches FaceExtent::Disk { radius } ==> (sheet matches FaceSheet::One(b) ==> (
        b matches BoundarySheet::Circle(sh) ==> {
            &&& face.geom matches FaceGeom::Plane(plane) ==> has_one_bound(
                s,
                face_bounds(s, face, sheet),
                FaceBoundary::Circle((Circle3 { frame: plane.frame, radius })),
                b,
            )
            &&& !(face.geom is Plane) ==> face_bounds(s, face, sheet) == no_bounds(s)
        })),
        face.extent matches FaceExtent::PlanarBoundary { boundary } ==> (sheet matches
            FaceSheet::One(b) ==> {
            &&& face.geom is Plane && same_kind(boundary, b) ==> has_one_bound(
                s,
                face_bounds(s, face, sheet),
                boundary,
                b,
            )
            &&& !(face.geom is Plane) ==> face_bounds(s, face, sheet) == no_bounds(s)
        }),
{
    match (face.extent, sheet) {
        (FaceExtent::Disk { radius }, FaceSheet::One(b)) => {
            if face.geom is Plane && b is Circle {
                let frame = face.geom->Plane_0.frame;
                let circle = Circle3 { frame, radius };
                lemma_goes_round(s, FaceBoundary::Circle(circle), b, true, true);
            }
        },
        (FaceExtent::PlanarBoundary { boundary }, FaceSheet::One(b)) => {
            if face.geom is Plane && same_kind(boundary, b) {
                lemma_goes_round(s, boundary, b, true, true);
            }
        },
        _ => {},
    }
}

/// A polygon of three or more corners is bounded by the ring of its corners, and
/// so is a sector of a disk on a plane. A cylinder that is cut along its axis is
/// bounded by the ring along its one arc and back along its other, without the
/// last point if that is the first again (1e-7). Fewer corners, and the wrong
/// kind of surface, give no bounds.
pub proof fn law_polygons_are_bounded(s: StepState, face: Face, sheet: FaceSheet)
    requires
        counted(s),
        face_bounds(s, face, sheet).state.counter <= usize::MAX,
    ensures
        face.extent matches FaceExtent::Polygon { points } ==> (sheet matches FaceSheet::Ring(
            ring,
        ) ==> {
            &&& ring is Some && points@.len() >= 3 ==> has_ring(
                s,
                face_bounds(s, face, sheet),
                ring->0.points@,
                ring->0.sides@,
            )
            &&& ring is None || points@.len() < 3 ==> face_bounds(s, face, sheet) == no_bounds(s)
        }),
        face.extent is PartialDisk ==> (sheet matches FaceSheet::Ring(ring) ==> {
            &&& ring is Some && face.geom is Plane ==> has_ring(
                s,
                face_bounds(s, face, sheet),
                ring->0.points@,
                ring->0.sides@,
            )
            &&& ring is None || !(face.geom is Plane) ==> face_bounds(s, face, sheet)
                == no_bounds(s)
        }),
        face.extent is PartialCylinder ==> (sheet matches FaceSheet::Band(band) ==> {
            let there_and_back = band.near@ + band.far@.reverse();
            let ring = if band.closing.below(Real { bits: 0x3e7ad7f29abcaf48 }) {
                there_and_back.drop_last()
            } else {
                there_and_back
            };
            &&& face.geom is Cylinder && ring.len() >= 3 ==> has_ring(
                s,
                face_bounds(s, face, sheet),
                ring,
                band.sides@,
            )
            &&& !(face.geom is Cylinder) || ring.len() < 3 ==> face_bounds(s, face, sheet)
                == no_bounds(s)
        }),
{
    match (face.extent, sheet) {
        (FaceExtent::Polygon { points }, FaceSheet::Ring(Some(ring))) => {
            if points@.len() >= 3 {
                law_rings_go_round(s, ring.points@, ring.sides@);
            }
        },
        (
            FaceExtent::PartialDisk { radius, start_angle, end_angle },
            FaceSheet::Ring(Some(ring)),
        ) => {
            if face.geom is Plane {
                law_rings_go_round(s, ring.points@, ring.sides@);
            }
        },
        (
            FaceExtent::PartialCylinder { length, arc_start_angle, arc_end_angle, arc_ref_dir },
            FaceSheet::Band(band),
        ) => {
            if face.geom is Cylinder && band_ring(band).len() >= 3 {
                law_rings_go_round(s, band_ring(band), band.sides@);
            }
        },
        _ => {},
    }
}

/// A rounded rectangle goes round by its sides and its corners, a patch of a
/// cylinder by two sides and two arcs; a patch on anything but a cylinder has no
/// bounds, nor has a face whose extent is not known or is given by its trimming.
pub proof fn law_rounded_faces_are_bounded(s: StepState, face: Face, sheet: FaceSheet)
    requires
        counted(s),
        face_bounds(s, face, sheet).state.counter <= usize::MAX,
    ensures
        face.extent matches FaceExtent::RoundedRectCap {
            xmin,
            xmax,
            zmin,
            zmax,
            radius,
            y,
            plus_y,
        } ==> (sheet matches FaceSheet::Cap(cap) ==> (cap.points@.len() == 8 && cap.sides@.len()
            == 4 && cap.corners@.len() == 4 && (forall|i: int|
            0 <= i < 4 ==> is_there(#[trigger] cap.sides@[i]) && cap.sides@[i].dir is Some)
            ==> cap_goes_round(s, face_bounds(s, face, sheet), cap, plus_y))),
        face.extent is CylinderArcFace ==> (sheet matches FaceSheet::ArcFace(patch) ==> {
            &&& face.geom is Cylinder && patch is Some && is_there(patch->0.up)
                && patch->0.up.dir is Some && is_there(patch->0.down) && patch->0.down.dir is Some
                ==> patch_goes_round(s, face_bounds(s, face, sheet), patch->0)
            &&& !(face.geom is Cylinder) || patch is None ==> face_bounds(s, face, sheet)
                == no_bounds(s)
        }),
        face.extent is Unknown || face.extent is Trimmed ==> face_bounds(s, face, sheet)
            == no_bounds(s),
{
    match (face.extent, sheet) {
        (
            FaceExtent::RoundedRectCap { xmin, xmax, zmin, zmax, radius, y, plus_y },
            FaceSheet::Cap(cap),
        ) => {
            if cap.points@.len() == 8 && cap.sides@.len() == 4 && cap.corners@.len() == 4 && (
            forall|i: int|
                0 <= i < 4 ==> is_there(#[trigger] cap.sides@[i]) && cap.sides@[i].dir is Some) {
                law_rounded_rectangles_go_round(s, cap, plus_y);
            }
        },
        (
            FaceExtent::CylinderArcFace { length, arc_start_angle, arc_end_angle, arc_ref_dir },
            FaceSheet::ArcFace(Some(patch)),
        ) => {
            if face.geom is Cylinder && is_there(patch.up) && patch.up.dir is Some && is_there(
                patch.down,
            ) && patch.down.dir is Some {
                law_cylinder_patches_go_round(s, patch);
            }
        },
        _ => {},
    }
}

// ── Faces ───────────────────────────────────────────────────────────────────

/// Whether entity `id` is a face: on its surface, looking as it does, with these
/// bounds.
pub open spec fn is_face(lines: Seq<Script>, id: int, face: Face) -> bool {
    exists|bounds: Seq<usize>, surface: usize| #[trigger]
        says(lines, id, face_text(bounds, surface, face.normal is Same)) && is_surface(
            lines,
            surface as int,
            face.geom,
        )
}

/// Whoever reads a face finds its surface, its bounds, and which way it looks.
#[verifier::spinoff_prover]
pub proof fn law_faces_read_back(s: StepState, face: Face, sheet: FaceSheet)
    requires
        counted(s),
        s.advanced_face(face, sheet).counter <= usize::MAX,
    ensures
        ({
            let t = s.advanced_face(face, sheet);
            let surface = s.surface(face.geom);
            let bounds = face_bounds(surface, face, sheet);
            &&& counted(t)
            &&& lines_stay(s, t)
            &&& lines_stay(bounds.state, t)
            &&& t.counter == bounds.state.counter + 1
            &&& is_surface(t.lines, surface.counter as int, face.geom)
            &&& face.normal is Same ==> says(
                t.lines,
                t.counter as int,
                face_text(bounds.ids, surface.counter as usize, true),
            )
            &&& face.normal is Reversed ==> says(
                t.lines,
                t.counter as int,
                face_text(bounds.ids, surface.counter as usize, false),
            )
            &&& is_face(t.lines, t.counter as int, face)
        }),
{
    reveal(StepState::advanced_face);
    let t = s.advanced_face(face, sheet);
    let surface = s.surface(face.geom);
    let bounds = face_bounds(surface, face, sheet);
    law_surfaces_read_back(s, face.geom);
    lemma_face_bounds(surface, face, sheet);
    assert(lines_stay(surface, bounds.state));
    let same = face.normal is Same;
    lemma_face_put(bounds.state, bounds.ids, surface.counter as usize, same);
    lemma_stays_through(s, surface, bounds.state);
    lemma_stays_through(s, bounds.state, t);
    lemma_stays_through(surface, bounds.state, t);
    lemma_surface_stays(surface, t, surface.counter as int, face.geom);
    assert(says(t.lines, t.counter as int, face_text(bounds.ids, surface.counter as usize, same)));
}

proof fn lemma_face_put(b: StepState, ids: Seq<usize>, surface: usize, same: bool)
    requires
        counted(b),
    ensures
        ({
            let t = b.put(
                Script::empty().text("ADVANCED_FACE('',("@).refs(ids).text("),(#"@).whole(
                    surface as nat,
                ).text("),"@).text(flag(same)).text(")"@),
            );
            &&& counted(t)
            &&& lines_stay(b, t)
            &&& t.counter == b.counter + 1
            &&& says(t.lines, t.counter as int, face_text(ids, surface, same))
        }),
{
    lemma_face_text(ids, surface, same);
}

proof fn lemma_stays_through(s: StepState, t: StepState, u: StepState)
    requires
        lines_stay(s, t),
        lines_stay(t, u),
    ensures
        lines_stay(s, u),
{
    assert forall|i: int| 0 <= i < s.lines.len() implies #[trigger] u.lines[i] == s.lines[i] by {
        assert(t.lines[i] == s.lines[i]);
    }
}

proof fn lemma_surface_stays(s: StepState, t: StepState, id: int, geom: FaceGeom)
    requires
        lines_stay(s, t),
        is_surface(s.lines, id, geom),
    ensures
        is_surface(t.lines, id, geom),
{
    assert(t.lines[id - 1] == s.lines[id - 1]);
    assert(t.lines[id - 2] == s.lines[id - 2]);
    assert(t.lines[id - 3] == s.lines[id - 3]);
    assert(t.lines[id - 4] == s.lines[id - 4]);
    assert(t.lines[id - 5] == s.lines[id - 5]);
}

} // verus!
