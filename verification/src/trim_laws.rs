//! What a plane leaves of a part, and how sections meet the boundaries of faces.

use vstd::prelude::*;

use crate::boundary::{
    corners, counting, live_loop, live_rings, oriented, picked_points, region, ring_of, walked,
};
use crate::brep::Model;
use crate::entities::{CoEdge, CoEdgeSense, Face, FaceExtent, FaceGeom, FaceNormal};
use crate::geometry::{Plane3, Point3};
use crate::halfspace::{
    action_for, caps_of, cell_stays, cells_left, cut_off, face_left, faces_left, is_cap, owned_by,
    section_caps, sectioned, sections_of, side_of, side_tolerance, Action, CapCell, Cell, CutCell,
    CutSheet, SectionProbe, Side,
};
use crate::ids::{CoEdgeId, FaceId, LoopId, ShellId, SolidId};
use crate::intersect::pair_curves;
use crate::outline::{Section, SectionView};
use crate::polyline::{
    all_below, ascending, in_order, law_singled_is_spread, law_thinned_is_spaced,
    lemma_ordered_is_there, lemma_thinned, ordered, placed, same_numbers, singled, thinned, Apart,
    Place,
};
use crate::scalar::Real;
use crate::section::{
    closed_chain, crosses_seam, face_chains, foot_counts, foot_places, grafted, grafts, joints_on,
    jointed, local_turns, open_ends, ring_chains, rising, same_spot, seam_place, seam_points,
    section_points, spots, tagged_boundaries, tagged_sections, value_places, walk_kept, widest,
    with_joints, ChainSpan, ChainView, Foot, PieceProbe, RingWalk, SeamStep, Uv, UvCurve,
};
use crate::solid::{as_planned, assembled, built, BuiltIds, PlanView};
use crate::ssi::{surface_pair, CurveView, SsiCurve, SsiOptions};

verus! {

/// 1e-9.
pub open spec fn hair() -> Real {
    Real { bits: 0x3e112e0be826d695 }
}

proof fn lemma_filter_push<A>(s: Seq<A>, a: A, f: spec_fn(A) -> bool)
    ensures
        s.push(a).filter(f) == (if f(a) {
            s.filter(f).push(a)
        } else {
            s.filter(f)
        }),
{
    reveal(Seq::filter);
    assert(s.push(a).drop_last() =~= s);
}

proof fn lemma_filter_none<A>(s: Seq<A>, f: spec_fn(A) -> bool)
    requires
        s.len() == 0,
    ensures
        s.filter(f).len() == 0,
{
    reveal(Seq::filter);
}

// ── Sides ───────────────────────────────────────────────────────────────────

/// What is nowhere behind the plane by more than the tolerance is kept; of the
/// rest, what is nowhere in front of it by more is cut off; and the remainder is
/// on both sides. The tolerance is the one for knitting, but at least 1e-9.
pub proof fn law_sides(low: Real, high: Real, knit: Real)
    requires
        !low.nan(),
        !high.nan(),
        !knit.nan(),
    ensures
        ({
            let tol = side_tolerance(knit);
            let behind = low.below(tol.negated());
            let in_front = tol.below(high);
            &&& hair().at_most(tol) && knit.at_most(tol)
            &&& tol == hair() || tol == knit
            &&& side_of(low, high, tol) is Kept <==> !behind
            &&& side_of(low, high, tol) is Cut <==> behind && !in_front
            &&& side_of(low, high, tol) is Straddles <==> behind && in_front
        }),
{
}

// ── What is left of faces ───────────────────────────────────────────────────

/// Whether a cell of a cut face stays: its inner point is on the face and not
/// behind the plane.
pub open spec fn remains(cell: CutCell) -> bool {
    cell.on_face && !cell.distance.below(Real { bits: 0 })
}

proof fn lemma_cells_left(face: Face, cells: Seq<CutCell>, k: int)
    requires
        0 <= k <= cells.len(),
    ensures
        ({
            let there = cells.take(k).filter(|c: CutCell| remains(c));
            let left = cells_left(face, cells, k);
            &&& left.len() == there.len()
            &&& forall|i: int|
                0 <= i < there.len() ==> (#[trigger] left[i]).geom == face.geom && left[i].normal
                    == face.normal && left[i].loops == there[i].loops
        }),
    decreases k,
{
    let f = |c: CutCell| remains(c);
    if k > 0 {
        lemma_cells_left(face, cells, k - 1);
        assert(cells.take(k) =~= cells.take(k - 1).push(cells[k - 1]));
        lemma_filter_push(cells.take(k - 1), cells[k - 1], f);
        let was = cells_left(face, cells, k - 1);
        let left = cells_left(face, cells, k);
        let there = cells.take(k).filter(f);
        assert forall|i: int| 0 <= i < there.len() implies (#[trigger] left[i]).geom == face.geom
            && left[i].normal == face.normal && left[i].loops == there[i].loops by {
            if i < was.len() {
                assert(left[i] == was[i]);
            }
        }
    } else {
        lemma_filter_none(cells.take(0), f);
    }
}

/// A face that no section touches and that has a loop of its own is copied whole
/// if it is kept and left out if it is cut off (to 1e-9). Any other face is cut
/// up, if its surface can be, and of its cells those that remain are left, in
/// turn, on its surface and looking as it did. A face that can be neither is left
/// out.
pub proof fn law_faces_go_by_their_side(model: Model, sheet: CutSheet, sections: Seq<Section>)
    ensures
        ({
            let face = model.faces[sheet.face];
            let side = side_of(sheet.low, sheet.high, hair());
            let untouched = model.loops.dom().contains(face.outer_loop)
                && model.coedges.dom().contains(model.loops[face.outer_loop].start) && forall|i: int|
                0 <= i < sections.len() ==> (#[trigger] sections[i]).owner != sheet.face;
            let left = face_left(model, sheet, sections);
            let there = sheet.cells@.filter(|c: CutCell| remains(c));
            &&& untouched && side is Kept ==> left.len() == 1 && left[0].geom == face.geom
                && left[0].normal == face.normal && left[0].loops == sheet.copy
            &&& untouched && side is Cut ==> left.len() == 0
            &&& !untouched || side is Straddles ==> {
                &&& !sheet.has_domain ==> left.len() == 0
                &&& sheet.has_domain ==> left.len() == there.len() && forall|i: int|
                    0 <= i < there.len() ==> (#[trigger] left[i]).geom == face.geom
                        && left[i].normal == face.normal && left[i].loops == there[i].loops
            }
        }),
{
    lemma_cells_left(model.faces[sheet.face], sheet.cells@, sheet.cells@.len() as int);
    assert(sheet.cells@.take(sheet.cells@.len() as int) =~= sheet.cells@);
    assert(sectioned(sections, sheet.face) <==> !(forall|i: int|
        0 <= i < sections.len() ==> (#[trigger] sections[i]).owner != sheet.face));
}

proof fn lemma_left_flat(model: Model, sheets: Seq<CutSheet>, sections: Seq<Section>, k: int)
    requires
        0 <= k <= sheets.len(),
    ensures
        faces_left(model, sheets, sections, k) == sheets.take(k).map_values(
            |s: CutSheet| face_left(model, s, sections),
        ).flatten(),
    decreases k,
{
    let f = |s: CutSheet| face_left(model, s, sections);
    if k > 0 {
        lemma_left_flat(model, sheets, sections, k - 1);
        let was = sheets.take(k - 1).map_values(f);
        let now = sheets.take(k).map_values(f);
        assert(now =~= was.push(face_left(model, sheets[k - 1], sections)));
        assert(now.drop_last() =~= was);
        now.lemma_flatten_and_flatten_alt_are_equivalent();
        was.lemma_flatten_and_flatten_alt_are_equivalent();
    } else {
        assert(sheets.take(0).map_values(f) =~= Seq::<Seq<Cell>>::empty());
    }
}

/// What is left of a part is what is left of each of its faces, face after face.
pub proof fn law_parts_are_left_face_by_face(
    model: Model,
    sheets: Seq<CutSheet>,
    sections: Seq<Section>,
)
    ensures
        faces_left(model, sheets, sections, sheets.len() as int) == sheets.map_values(
            |s: CutSheet| face_left(model, s, sections),
        ).flatten(),
{
    lemma_left_flat(model, sheets, sections, sheets.len() as int);
    assert(sheets.take(sheets.len() as int) =~= sheets);
}

/// Whether a cell of the plane closes the part: there is material behind it, and
/// the rectangle round the section is not on its boundary.
pub open spec fn closes(cell: CapCell) -> bool {
    cell.filled && forall|i: int| 0 <= i < cell.tags@.len() ==> #[trigger] cell.tags@[i] != 1
}

proof fn lemma_caps(plane: Plane3, cells: Seq<CapCell>, k: int)
    requires
        0 <= k <= cells.len(),
    ensures
        ({
            let there = cells.take(k).filter(|c: CapCell| closes(c));
            let caps = caps_of(plane, cells, k);
            &&& caps.len() == there.len()
            &&& forall|i: int|
                0 <= i < there.len() ==> (#[trigger] caps[i]).geom == FaceGeom::Plane(plane)
                    && caps[i].normal is Same && caps[i].loops == there[i].loops
        }),
    decreases k,
{
    let f = |c: CapCell| closes(c);
    if k > 0 {
        lemma_caps(plane, cells, k - 1);
        assert(cells.take(k) =~= cells.take(k - 1).push(cells[k - 1]));
        lemma_filter_push(cells.take(k - 1), cells[k - 1], f);
        let was = caps_of(plane, cells, k - 1);
        let caps = caps_of(plane, cells, k);
        let there = cells.take(k).filter(f);
        assert forall|i: int| 0 <= i < there.len() implies (#[trigger] caps[i]).geom
            == FaceGeom::Plane(plane) && caps[i].normal is Same && caps[i].loops
            == there[i].loops by {
            if i < was.len() {
                assert(caps[i] == was[i]);
            }
        }
    } else {
        lemma_filter_none(cells.take(0), f);
    }
}

/// A section is closed by the cells of the plane with material behind them, as
/// faces of the plane that look as it does; without a loop there are none.
pub proof fn law_sections_are_closed(plane: Plane3, loops: Seq<Vec<Point3>>, cells: Seq<CapCell>)
    ensures
        ({
            let there = cells.filter(|c: CapCell| closes(c));
            let caps = section_caps(plane, loops, cells);
            &&& loops.len() == 0 ==> caps.len() == 0
            &&& loops.len() > 0 ==> caps.len() == there.len() && forall|i: int|
                0 <= i < there.len() ==> (#[trigger] caps[i]).geom == FaceGeom::Plane(plane)
                    && caps[i].normal is Same && caps[i].loops == there[i].loops
        }),
{
    lemma_caps(plane, cells, cells.len() as int);
    assert(cells.take(cells.len() as int) =~= cells);
}

proof fn lemma_cut_off(sheets: Seq<CutSheet>, tol: Real, k: int)
    requires
        0 <= k <= sheets.len(),
    ensures
        cut_off(sheets, tol, k) == sheets.take(k).filter(
            |s: CutSheet| !tol.negated().at_most(s.low) && s.high.at_most(tol),
        ).len(),
    decreases k,
{
    let f = |s: CutSheet| !tol.negated().at_most(s.low) && s.high.at_most(tol);
    if k > 0 {
        lemma_cut_off(sheets, tol, k - 1);
        assert(sheets.take(k) =~= sheets.take(k - 1).push(sheets[k - 1]));
        lemma_filter_push(sheets.take(k - 1), sheets[k - 1], f);
    } else {
        lemma_filter_none(sheets.take(0), f);
    }
}

/// The faces that are counted as cut off are those that are nowhere in front of
/// the plane by more than the tolerance, and not kept.
pub proof fn law_cut_off_faces(sheets: Seq<CutSheet>, tol: Real)
    ensures
        cut_off(sheets, tol, sheets.len() as int) == sheets.filter(
            |s: CutSheet| !tol.negated().at_most(s.low) && s.high.at_most(tol),
        ).len(),
{
    lemma_cut_off(sheets, tol, sheets.len() as int);
    assert(sheets.take(sheets.len() as int) =~= sheets);
}

/// Whether face `i` is on both sides of the plane and meets it in a curve.
pub open spec fn meets_in(
    model: Model,
    cutter: FaceGeom,
    probes: Seq<SectionProbe>,
    tol: Real,
    i: int,
    curve: CurveView,
) -> bool {
    &&& !tol.negated().at_most(probes[i].low)
    &&& !probes[i].high.at_most(tol)
    &&& pair_curves(
        surface_pair(
            model.faces[probes[i].face].geom,
            cutter,
            SsiOptions { plane_torus: true },
        ),
        probes[i].pair,
    ).contains(curve)
}

proof fn lemma_sections(
    model: Model,
    cutter: FaceGeom,
    probes: Seq<SectionProbe>,
    tol: Real,
    k: int,
    v: SectionView,
)
    requires
        0 <= k <= probes.len(),
    ensures
        sections_of(model, cutter, probes, tol, k).contains(v) <==> exists|i: int|
            0 <= i < k && probes[i].face == v.owner && #[trigger] meets_in(
                model,
                cutter,
                probes,
                tol,
                i,
                v.curve,
            ),
    decreases k,
{
    if k > 0 {
        lemma_sections(model, cutter, probes, tol, k - 1, v);
        let p = probes[k - 1];
        let was = sections_of(model, cutter, probes, tol, k - 1);
        let now = sections_of(model, cutter, probes, tol, k);
        let curves = pair_curves(
            surface_pair(model.faces[p.face].geom, cutter, SsiOptions { plane_torus: true }),
            p.pair,
        );
        let own = owned_by(p.face, curves);
        if was.contains(v) {
            let i = choose|i: int| 0 <= i < was.len() && was[i] == v;
            assert(now[i] == v);
        }
        if meets_in(model, cutter, probes, tol, k - 1, v.curve) && p.face == v.owner {
            let i = choose|i: int| 0 <= i < curves.len() && curves[i] == v.curve;
            assert(own[i] == v);
            assert(now[was.len() + i] == v);
        }
        if now.contains(v) {
            let i = choose|i: int| 0 <= i < now.len() && now[i] == v;
            if i < was.len() {
                assert(was[i] == v);
            } else {
                assert(own[i - was.len()] == v);
                assert(curves[i - was.len()] == v.curve);
                assert(meets_in(model, cutter, probes, tol, k - 1, v.curve));
            }
        }
    }
}

/// The section curves of a part are just those in which its faces that are on
/// both sides of the plane meet it, each with its face.
pub proof fn law_sections_are_where_faces_cross(
    model: Model,
    cutter: FaceGeom,
    probes: Seq<SectionProbe>,
    tol: Real,
    v: SectionView,
)
    ensures
        sections_of(model, cutter, probes, tol, probes.len() as int).contains(v) <==> exists|i: int|
            0 <= i < probes.len() && probes[i].face == v.owner && #[trigger] meets_in(
                model,
                cutter,
                probes,
                tol,
                i,
                v.curve,
            ),
{
    lemma_sections(model, cutter, probes, tol, probes.len() as int, v);
}

// ── Joints ──────────────────────────────────────────────────────────────────

/// The open curves of two points or more.
pub open spec fn with_ends(curves: Seq<SsiCurve>) -> Seq<SsiCurve> {
    curves.filter(|c: SsiCurve| !c.closed && c.points@.len() >= 2)
}

proof fn lemma_ends(curves: Seq<SsiCurve>, k: int)
    requires
        0 <= k <= curves.len(),
    ensures
        ({
            let own = with_ends(curves.take(k));
            let ends = open_ends(curves, k);
            &&& ends.len() == 2 * own.len()
            &&& forall|i: int|
                0 <= i < own.len() ==> ends[2 * i] == (#[trigger] own[i]).points@[0] && ends[2 * i
                    + 1] == own[i].points@[own[i].points@.len() - 1]
        }),
    decreases k,
{
    let f = |c: SsiCurve| !c.closed && c.points@.len() >= 2;
    if k > 0 {
        lemma_ends(curves, k - 1);
        assert(curves.take(k) =~= curves.take(k - 1).push(curves[k - 1]));
        lemma_filter_push(curves.take(k - 1), curves[k - 1], f);
        let was = with_ends(curves.take(k - 1));
        let own = with_ends(curves.take(k));
        let ends = open_ends(curves, k);
        assert forall|i: int| 0 <= i < own.len() implies ends[2 * i] == (#[trigger] own[i]).points@[
            0
        ] && ends[2 * i + 1] == own[i].points@[own[i].points@.len() - 1] by {
            if i < was.len() {
                assert(own[i] == was[i]);
            }
        }
    } else {
        lemma_filter_none(curves.take(0), f);
    }
}

/// The ends of curves are the first and the last point of each open one, in turn.
pub proof fn law_open_curves_have_two_ends(curves: Seq<SsiCurve>)
    ensures
        ({
            let own = with_ends(curves);
            let ends = open_ends(curves, curves.len() as int);
            &&& ends.len() == 2 * own.len()
            &&& forall|i: int|
                0 <= i < own.len() ==> ends[2 * i] == (#[trigger] own[i]).points@[0] && ends[2 * i
                    + 1] == own[i].points@[own[i].points@.len() - 1]
        }),
{
    lemma_ends(curves, curves.len() as int);
    assert(curves.take(curves.len() as int) =~= curves);
}

/// Whether a joint belongs on a piece: within the piece, from 1e-6 to 1 - 1e-6 of
/// it, and no further off than it may be.
pub open spec fn belongs(foot: Foot, tol: Real) -> bool {
    &&& (Real { bits: 0x3eb0c6f7a0b5ed8d }).at_most(foot.along)
    &&& foot.along.at_most(Real { bits: 0x3feffffde7210be9 })
    &&& foot.off.at_most(tol)
}

proof fn lemma_joints_on(piece: PieceProbe, k: int, x: usize)
    requires
        0 <= k <= piece.feet@.len() <= usize::MAX,
    ensures
        joints_on(piece, k).contains(x) <==> x < k && belongs(piece.feet@[x as int], piece.tol),
        ascending(joints_on(piece, k)),
        all_below(joints_on(piece, k), k),
    decreases k,
{
    if k > 0 {
        lemma_joints_on(piece, k - 1, x);
        let was = joints_on(piece, k - 1);
        let now = joints_on(piece, k);
        if was.contains(x) {
            let i = choose|i: int| 0 <= i < was.len() && was[i] == x;
            assert(now[i] == x);
        }
        if now.contains(x) {
            let i = choose|i: int| 0 <= i < now.len() && now[i] == x;
            if i < was.len() {
                assert(was[i] == x);
            }
        }
        if x == k - 1 && belongs(piece.feet@[x as int], piece.tol) {
            assert(now.last() == x);
        }
    }
}

proof fn lemma_grafts_spaced(
    piece: PieceProbe,
    apart: Seq<Vec<Real>>,
    list: Seq<usize>,
    k: int,
    i: int,
)
    requires
        0 <= k <= list.len(),
        0 <= i < grafts(piece, apart, list, k).len(),
    ensures
        ({
            let kept = grafts(piece, apart, list, k);
            &&& list.take(k).contains(kept[i])
            &&& i == 0 ==> hair().below(piece.feet@[kept[0] as int].from_start)
            &&& i > 0 ==> hair().below(apart[kept[i - 1] as int]@[kept[i] as int])
        }),
    decreases k,
{
    if k > 0 {
        let was = grafts(piece, apart, list, k - 1);
        if i < was.len() {
            lemma_grafts_spaced(piece, apart, list, k - 1, i);
            let j = choose|j: int| 0 <= j < k - 1 && #[trigger] list.take(k - 1)[j] == was[i];
            assert(list.take(k)[j] == was[i]);
        } else {
            assert(list.take(k)[k - 1] == list[k - 1]);
        }
    }
}

proof fn lemma_grafts_in_turn(
    piece: PieceProbe,
    apart: Seq<Vec<Real>>,
    list: Seq<usize>,
    k: int,
    places: Seq<Place>,
)
    requires
        0 <= k <= list.len(),
        in_order(places, list),
    ensures
        in_order(places, grafts(piece, apart, list, k)),
    decreases k,
{
    if k > 0 {
        lemma_grafts_in_turn(piece, apart, list, k - 1, places);
        let was = grafts(piece, apart, list, k - 1);
        let now = grafts(piece, apart, list, k);
        assert forall|a: int, b: int| 0 <= a < b < now.len() implies crate::polyline::comes_first(
            places,
            #[trigger] now[a],
            #[trigger] now[b],
        ) by {
            if b < was.len() {
                assert(now[a] == was[a] && now[b] == was[b]);
            } else {
                lemma_grafts_spaced(piece, apart, list, k - 1, a);
                let i = choose|i: int| 0 <= i < k - 1 && #[trigger] list.take(k - 1)[i] == was[a];
                assert(list[i] == now[a] && list[k - 1] == now[b]);
            }
        }
    }
}

/// The joints that are put into a piece belong on it, go forward along it, and
/// are each more than 1e-9 after the point before them; nothing is put into a
/// piece without length (a square of 1e-24).
pub proof fn law_joints_go_forward(piece: PieceProbe, apart: Seq<Vec<Real>>, i: int)
    requires
        piece.feet@.len() <= usize::MAX,
        forall|x: int| 0 <= x < piece.feet@.len() ==> !(#[trigger] piece.feet@[x]).along.nan(),
    ensures
        piece.length2.below(Real { bits: 0x3af357c299a88ea7 }) ==> grafted(piece, apart).len() == 0,
        0 <= i < grafted(piece, apart).len() ==> {
            let list = grafted(piece, apart);
            &&& list[i] < piece.feet@.len()
            &&& belongs(piece.feet@[list[i] as int], piece.tol)
            &&& i == 0 ==> hair().below(piece.feet@[list[0] as int].from_start)
            &&& i > 0 ==> hair().below(apart[list[i - 1] as int]@[list[i] as int])
            &&& i > 0 ==> piece.feet@[list[i - 1] as int].along.at_most(
                piece.feet@[list[i] as int].along,
            )
        },
{
    let n = piece.feet@.len() as int;
    let hit = joints_on(piece, n);
    let places = foot_places(piece.feet@);
    let sorted = ordered(places, hit);
    lemma_joints_on(piece, n, 0);
    assert(placed(places, hit)) by {
        assert forall|k: int| 0 <= k < hit.len() implies (#[trigger] hit[k]) < places.len()
            && !places[hit[k] as int].along.nan() by {
            assert(hit[k] < n);
            assert(!piece.feet@[hit[k] as int].along.nan());
        }
    }
    lemma_ordered_is_there(places, hit);
    let list = grafted(piece, apart);
    if 0 <= i < list.len() {
        let m = sorted.len() as int;
        lemma_grafts_spaced(piece, apart, sorted, m, i);
        lemma_grafts_in_turn(piece, apart, sorted, m, places);
        assert(sorted.take(m) =~= sorted);
        assert(sorted.contains(list[i]));
        assert(hit.contains(list[i]));
        lemma_joints_on(piece, n, list[i]);
        if i > 0 {
            lemma_grafts_spaced(piece, apart, sorted, m, i - 1);
            assert(sorted.contains(list[i - 1]));
            assert(hit.contains(list[i - 1]));
            lemma_joints_on(piece, n, list[i - 1]);
            assert(crate::polyline::comes_first(places, list[i - 1], list[i]));
            assert(!piece.feet@[list[i] as int].along.nan());
            assert(!piece.feet@[list[i - 1] as int].along.nan());
        }
    }
}

/// Where point `i` of a polyline stands once joints are put in.
pub open spec fn new_place(pieces: Seq<PieceProbe>, apart: Seq<Vec<Real>>, i: int) -> int
    decreases i,
{
    if i <= 0 {
        0
    } else {
        new_place(pieces, apart, i - 1) + 1 + grafted(pieces[i - 1], apart).len()
    }
}

proof fn lemma_new_places(
    poly: Seq<Point3>,
    joints: Seq<Point3>,
    pieces: Seq<PieceProbe>,
    apart: Seq<Vec<Real>>,
    k: int,
    i: int,
)
    requires
        0 <= k <= poly.len(),
    ensures
        with_joints(poly, joints, pieces, apart, k).len() == new_place(pieces, apart, k),
        0 <= i < k ==> {
            let now = with_joints(poly, joints, pieces, apart, k);
            let at = new_place(pieces, apart, i);
            let own = grafted(pieces[i], apart);
            &&& 0 <= at && at + own.len() < now.len()
            &&& now[at] == poly[i]
            &&& forall|j: int|
                0 <= j < own.len() ==> now[at + 1 + j] == joints[(#[trigger] own[j]) as int]
        },
    decreases k,
{
    if k > 0 {
        lemma_new_places(poly, joints, pieces, apart, k - 1, i);
        let was = with_joints(poly, joints, pieces, apart, k - 1);
        let now = with_joints(poly, joints, pieces, apart, k);
        let at = new_place(pieces, apart, i);
        let own = grafted(pieces[i], apart);
        if 0 <= i < k - 1 {
            assert forall|j: int| 0 <= j < own.len() implies now[at + 1 + j]
                == joints[(#[trigger] own[j]) as int] by {
                assert(now[at + 1 + j] == was[at + 1 + j]);
            }
        } else if i == k - 1 {
            assert(now[at] == poly[i]);
            assert forall|j: int| 0 <= j < own.len() implies now[at + 1 + j]
                == joints[(#[trigger] own[j]) as int] by {
                assert(picked_points(joints, own)[j] == joints[own[j] as int]);
            }
        }
    }
}

/// A polyline with joints put in has all its points, in turn, and after each the
/// joints of the piece that starts there, and nothing else.
pub proof fn law_joints_stand_on_their_piece(
    poly: Seq<Point3>,
    joints: Seq<Point3>,
    pieces: Seq<PieceProbe>,
    apart: Seq<Vec<Real>>,
    i: int,
)
    requires
        joints.len() > 0,
        poly.len() >= 2,
        0 <= i < poly.len(),
    ensures
        ({
            let now = jointed(poly, joints, pieces, apart);
            let at = new_place(pieces, apart, i);
            &&& now.len() == new_place(pieces, apart, poly.len() - 1) + 1
            &&& 0 <= at < now.len()
            &&& now[at] == poly[i]
            &&& i < poly.len() - 1 ==> {
                let own = grafted(pieces[i], apart);
                forall|j: int|
                    0 <= j < own.len() ==> now[at + 1 + j] == joints[(#[trigger] own[j]) as int]
            }
        }),
{
    let k = poly.len() - 1;
    lemma_new_places(poly, joints, pieces, apart, k, i);
    let was = with_joints(poly, joints, pieces, apart, k);
    let now = jointed(poly, joints, pieces, apart);
    if i < k {
        let own = grafted(pieces[i], apart);
        let at = new_place(pieces, apart, i);
        assert forall|j: int| 0 <= j < own.len() implies now[at + 1 + j]
            == joints[(#[trigger] own[j]) as int] by {
            assert(now[at + 1 + j] == was[at + 1 + j]);
        }
    }
}

// ── The seam ────────────────────────────────────────────────────────────────

/// The angles that count are those of the chains that do not spread round the
/// axis by more than nine tenths of a turn, chain after chain.
pub proof fn law_chains_all_round_do_not_count(chains: Seq<ChainSpan>, k: int, t: Real)
    requires
        0 <= k <= chains.len(),
    ensures
        local_turns(chains, k).contains(t) <==> exists|i: int|
            0 <= i < k && !(Real { bits: 0x40169e9565708efc }).below(
                (#[trigger] chains[i]).width,
            ) && chains[i].turns@.contains(t),
    decreases k,
{
    if k > 0 {
        law_chains_all_round_do_not_count(chains, k - 1, t);
        let was = local_turns(chains, k - 1);
        let now = local_turns(chains, k);
        let own = chains[k - 1].turns@;
        let counts = !(Real { bits: 0x40169e9565708efc }).below(chains[k - 1].width);
        if was.contains(t) {
            let i = choose|i: int| 0 <= i < was.len() && was[i] == t;
            assert(now[i] == t);
        }
        if counts && own.contains(t) {
            let i = choose|i: int| 0 <= i < own.len() && own[i] == t;
            assert(now[was.len() + i] == t);
        }
        if now.contains(t) {
            let i = choose|i: int| 0 <= i < now.len() && now[i] == t;
            if i < was.len() {
                assert(was[i] == t);
            } else {
                assert(own[i - was.len()] == t);
                assert(chains[k - 1].turns@.contains(t));
            }
        }
    }
}

/// Numbers in rising order are the same numbers, none above the next.
pub proof fn law_rising_numbers(values: Seq<Real>, a: int, b: int)
    requires
        values.len() <= usize::MAX,
        forall|i: int| 0 <= i < values.len() ==> !(#[trigger] values[i]).nan(),
    ensures
        0 <= a < b < rising(values).len() ==> rising(values)[a].at_most(rising(values)[b]),
        forall|v: Real| #[trigger] rising(values).contains(v) <==> values.contains(v),
{
    let n = values.len() as int;
    let places = value_places(values);
    let every = counting(n);
    let order = ordered(places, every);
    assert(placed(places, every)) by {
        assert forall|k: int| 0 <= k < every.len() implies (#[trigger] every[k]) < places.len()
            && !places[every[k] as int].along.nan() by {
            assert(!values[every[k] as int].nan());
        }
    }
    lemma_ordered_is_there(places, every);
    let now = rising(values);
    if 0 <= a < b < now.len() {
        assert(crate::polyline::comes_first(places, order[a], order[b]));
        assert(order.contains(order[a]) && order.contains(order[b]));
        assert(every.contains(order[a]) && every.contains(order[b]));
        assert(!values[order[a] as int].nan());
        assert(!values[order[b] as int].nan());
    }
    assert forall|v: Real| #[trigger] now.contains(v) <==> values.contains(v) by {
        if now.contains(v) {
            let i = choose|i: int| 0 <= i < now.len() && now[i] == v;
            assert(order.contains(order[i]));
            assert(every.contains(order[i]));
            assert(values[order[i] as int] == v);
        }
        if values.contains(v) {
            let i = choose|i: int| 0 <= i < values.len() && values[i] == v;
            assert(every[i] == i as usize);
            assert(every.contains(i as usize));
            assert(order.contains(i as usize));
            let j = choose|j: int| 0 <= j < order.len() && order[j] == i as usize;
            assert(now[j] == v);
        }
    }
}

proof fn lemma_widest(gaps: Seq<Real>, middles: Seq<Real>, k: int)
    requires
        0 <= k <= gaps.len(),
    ensures
        ({
            let best = widest(gaps, middles, k);
            &&& !best.0.nan() && best.0.rank() >= 0
            &&& forall|i: int| 0 <= i < k ==> !best.0.below(#[trigger] gaps[i])
            &&& best.0.rank() > 0 ==> exists|i: int|
                0 <= i < k && #[trigger] gaps[i] == best.0 && middles[i] == best.1 && forall|j: int|
                    0 <= j < i ==> !best.0.at_most(#[trigger] gaps[j])
        }),
    decreases k,
{
    if k > 0 {
        lemma_widest(gaps, middles, k - 1);
        let was = widest(gaps, middles, k - 1);
        let best = widest(gaps, middles, k);
        if was.0.below(gaps[k - 1]) {
            assert forall|j: int| 0 <= j < k - 1 implies !best.0.at_most(#[trigger] gaps[j]) by {
                assert(!was.0.below(gaps[j]));
            }
            assert(gaps[k - 1] == best.0 && middles[k - 1] == best.1);
        }
    }
}

/// The seam is put into the middle of the first gap that no other is wider than;
/// if no gap is at least 1e-6 wide it stays.
pub proof fn law_seams_go_to_the_widest_gap(gaps: Seq<Real>, middles: Seq<Real>)
    ensures
        match seam_place(gaps, middles) {
            Some(m) => exists|i: int|
                0 <= i < gaps.len() && (Real { bits: 0x3eb0c6f7a0b5ed8d }).at_most(
                    #[trigger] gaps[i],
                ) && m == middles[i] && forall|j: int|
                    0 <= j < gaps.len() ==> !gaps[i].below(#[trigger] gaps[j]) && (j < i
                        ==> !gaps[i].at_most(gaps[j])),
            None => forall|j: int|
                0 <= j < gaps.len() ==> !(Real { bits: 0x3eb0c6f7a0b5ed8d }).at_most(
                    #[trigger] gaps[j],
                ),
        },
{
    lemma_widest(gaps, middles, gaps.len() as int);
    let best = widest(gaps, middles, gaps.len() as int);
    if seam_place(gaps, middles) is None {
        assert forall|j: int| 0 <= j < gaps.len() implies !(Real {
            bits: 0x3eb0c6f7a0b5ed8d,
        }).at_most(#[trigger] gaps[j]) by {
            assert(!best.0.below(gaps[j]));
        }
    }
}

/// Whether a step crosses the seam: it starts on one side of it and ends on the
/// other, is no more than half a turn, and the seam is within it.
pub open spec fn goes_over_seam(step: SeamStep) -> bool {
    let zero = Real { bits: 0 };
    &&& zero.below(step.from) && !zero.below(step.to) || !zero.below(step.from) && zero.below(
        step.to,
    )
    &&& !(Real { bits: 0x400921fb54442d18 }).below(step.jump)
    &&& zero.at_most(step.along)
    &&& step.along.at_most(Real { bits: 0x3ff0000000000000 })
}

proof fn lemma_seam_points(steps: Seq<SeamStep>, k: int)
    requires
        0 <= k <= steps.len(),
    ensures
        ({
            let over = steps.take(k).filter(|s: SeamStep| goes_over_seam(s));
            &&& seam_points(steps, k).len() == over.len()
            &&& forall|i: int|
                0 <= i < over.len() ==> #[trigger] seam_points(steps, k)[i] == over[i].point
        }),
    decreases k,
{
    let f = |s: SeamStep| goes_over_seam(s);
    if k > 0 {
        lemma_seam_points(steps, k - 1);
        assert(steps.take(k) =~= steps.take(k - 1).push(steps[k - 1]));
        lemma_filter_push(steps.take(k - 1), steps[k - 1], f);
        let was = seam_points(steps, k - 1);
        let now = seam_points(steps, k);
        let over = steps.take(k).filter(f);
        assert forall|i: int| 0 <= i < over.len() implies #[trigger] now[i] == over[i].point by {
            if i < was.len() {
                assert(now[i] == was[i]);
            }
        }
    } else {
        lemma_filter_none(steps.take(0), f);
    }
}

/// Chains cross the seam at the points of the steps that go over it, in turn.
pub proof fn law_steps_over_the_seam(steps: Seq<SeamStep>)
    ensures
        ({
            let over = steps.filter(|s: SeamStep| goes_over_seam(s));
            let points = seam_points(steps, steps.len() as int);
            &&& points.len() == over.len()
            &&& forall|i: int| 0 <= i < over.len() ==> #[trigger] points[i] == over[i].point
        }),
{
    lemma_seam_points(steps, steps.len() as int);
    assert(steps.take(steps.len() as int) =~= steps);
}

// ── Chains ──────────────────────────────────────────────────────────────────

/// A walk that makes a chain makes one that ends where it starts, on spots of the
/// walk in turn (1e-12), starting with its first; one with fewer than three spots
/// makes none.
pub proof fn law_chains_end_where_they_start(walk: Seq<Uv>, apart: Seq<Vec<Real>>, k: int)
    requires
        walk.len() <= usize::MAX,
    ensures
        closed_chain(walk, apart) is Some <==> walk_kept(apart, walk.len() as int).len() >= 3,
        closed_chain(walk, apart) matches Some(pts) ==> {
            let kept = walk_kept(apart, walk.len() as int);
            &&& same_spot(pts[0], pts.last()) || pts[0] == pts.last()
            &&& kept.len() <= pts.len() <= kept.len() + 1
            &&& pts[0] == walk[0]
            &&& forall|i: int| 0 <= i < kept.len() ==> #[trigger] pts[i] == walk[kept[i] as int]
        },
        0 < k < walk_kept(apart, walk.len() as int).len() ==> {
            let kept = walk_kept(apart, walk.len() as int);
            (Real { bits: 0x3d719799812dea11 }).below(apart[kept[k - 1] as int]@[kept[k] as int])
        },
{
    let n = walk.len() as int;
    if 0 < k < walk_kept(apart, n).len() {
        law_thinned_is_spaced(
            apart,
            Apart::Above(Real { bits: 0x3d719799812dea11 }),
            counting(n),
            n,
            k,
        );
    }
    assert(all_below(counting(n), n));
    lemma_thinned(
        apart,
        Apart::Above(Real { bits: crate::section::CHAIN_GAP }),
        counting(n),
        n,
        n,
    );
}

/// A face has the chains of its own rings, if it is looped and any of them makes
/// one; otherwise those that its extent implies.
pub proof fn law_faces_have_their_own_chains(
    looped: bool,
    rings: Seq<RingWalk>,
    template: Seq<Seq<Uv>>,
    k: int,
)
    ensures
        !looped ==> face_chains(looped, rings, template) == template,
        looped && (forall|i: int|
            0 <= i < rings.len() ==> closed_chain((#[trigger] rings[i]).walk@, rings[i].apart@)
                is None) ==> face_chains(looped, rings, template) == template,
        looped && 0 <= k < rings.len() ==> (closed_chain(rings[k].walk@, rings[k].apart@) matches
            Some(pts) ==> face_chains(looped, rings, template).contains(pts)),
{
    lemma_ring_chains(rings, rings.len() as int, k);
    if looped && (forall|i: int|
        0 <= i < rings.len() ==> closed_chain((#[trigger] rings[i]).walk@, rings[i].apart@)
            is None) {
        lemma_no_chains(rings, rings.len() as int);
    }
}

proof fn lemma_no_chains(rings: Seq<RingWalk>, k: int)
    requires
        0 <= k <= rings.len(),
        forall|i: int|
            0 <= i < rings.len() ==> closed_chain((#[trigger] rings[i]).walk@, rings[i].apart@)
                is None,
    ensures
        ring_chains(rings, k).len() == 0,
    decreases k,
{
    if k > 0 {
        lemma_no_chains(rings, k - 1);
        assert(closed_chain(rings[k - 1].walk@, rings[k - 1].apart@) is None);
    }
}

proof fn lemma_ring_chains(rings: Seq<RingWalk>, n: int, k: int)
    requires
        0 <= n <= rings.len(),
    ensures
        0 <= k < n ==> (closed_chain(rings[k].walk@, rings[k].apart@) matches Some(pts)
            ==> ring_chains(rings, n).contains(pts)),
    decreases n,
{
    if n > 0 {
        lemma_ring_chains(rings, n - 1, k);
        let was = ring_chains(rings, n - 1);
        let now = ring_chains(rings, n);
        if 0 <= k < n && closed_chain(rings[k].walk@, rings[k].apart@) is Some {
            let pts = closed_chain(rings[k].walk@, rings[k].apart@)->0;
            if k < n - 1 {
                let i = choose|i: int| 0 <= i < was.len() && was[i] == pts;
                assert(now[i] == pts);
            } else {
                assert(now.last() == pts);
            }
        }
    }
}

/// Boundary chains are tagged from one on, in turn.
pub proof fn law_boundaries_are_tagged_in_turn(boundaries: Seq<Vec<Uv>>, k: int, i: int)
    requires
        0 <= i < k <= boundaries.len() <= u32::MAX,
    ensures
        tagged_boundaries(boundaries, k).len() == k,
        tagged_boundaries(boundaries, k)[i].pts == boundaries[i]@,
        tagged_boundaries(boundaries, k)[i].tag == i + 1,
    decreases k,
{
    if i < k - 1 {
        law_boundaries_are_tagged_in_turn(boundaries, k - 1, i);
    } else if k > 1 {
        law_boundaries_are_tagged_in_turn(boundaries, k - 1, 0);
    } else {
        assert(tagged_boundaries(boundaries, 0).len() == 0);
    }
}

/// Section chains are those of the sections with two points or more, in turn,
/// and tagged from 1000 on.
pub proof fn law_sections_are_tagged_in_turn(curves: Seq<UvCurve>, k: int)
    requires
        0 <= k <= curves.len(),
        1000 + curves.len() <= u32::MAX,
    ensures
        ({
            let own = curves.take(k).filter(|c: UvCurve| c.pts@.len() >= 2);
            let chains = tagged_sections(curves, k);
            &&& chains.len() == own.len()
            &&& chains.len() <= k
            &&& forall|i: int|
                0 <= i < own.len() ==> (#[trigger] chains[i]).pts == section_points(own[i])
                    && chains[i].tag == 1000 + i
        }),
    decreases k,
{
    let f = |c: UvCurve| c.pts@.len() >= 2;
    if k > 0 {
        law_sections_are_tagged_in_turn(curves, k - 1);
        assert(curves.take(k) =~= curves.take(k - 1).push(curves[k - 1]));
        lemma_filter_push(curves.take(k - 1), curves[k - 1], f);
        let was = tagged_sections(curves, k - 1);
        let chains = tagged_sections(curves, k);
        let own = curves.take(k).filter(f);
        assert forall|i: int| 0 <= i < own.len() implies (#[trigger] chains[i]).pts
            == section_points(own[i]) && chains[i].tag == 1000 + i by {
            if i < was.len() {
                assert(chains[i] == was[i]);
            }
        }
    } else {
        lemma_filter_none(curves.take(0), f);
    }
}

/// A section loop ends with its first point again; an open section is as it is.
pub proof fn law_section_loops_are_closed(curve: UvCurve)
    ensures
        curve.closed && curve.pts@.len() >= 3 ==> section_points(curve).len() == curve.pts@.len()
            + 1 && section_points(curve)[0] == section_points(curve).last(),
        forall|i: int|
            0 <= i < curve.pts@.len() ==> #[trigger] section_points(curve)[i] == curve.pts@[i],
        !curve.closed ==> section_points(curve) == curve.pts@,
{
}

// ── Boundaries ──────────────────────────────────────────────────────────────

/// A walk along a use of an edge goes through the edge's samples, in turn if the
/// use has the sense of the edge and backward if not; and so use after use.
pub proof fn law_walks_follow_their_senses(
    coedges: Map<CoEdgeId, CoEdge>,
    ring: Seq<CoEdgeId>,
    samples: Seq<Vec<Point3>>,
    k: int,
    i: int,
)
    requires
        0 <= k < ring.len(),
        ring.len() == samples.len(),
        0 <= i < samples[k]@.len(),
    ensures
        ({
            let before = walked(coedges, ring, samples, k);
            let now = walked(coedges, ring, samples, k + 1);
            let n = samples[k]@.len() as int;
            &&& walked(coedges, ring, samples, 0).len() == 0
            &&& now.len() == before.len() + n
            &&& now.take(before.len() as int) == before
            &&& coedges[ring[k]].sense is Same ==> now[before.len() + i] == samples[k]@[i]
            &&& coedges[ring[k]].sense is Opposite ==> now[before.len() + i] == samples[k]@[n - 1
                - i]
        }),
{
    let before = walked(coedges, ring, samples, k);
    let now = walked(coedges, ring, samples, k + 1);
    assert(now.take(before.len() as int) =~= before);
}

/// The region of a polygon is its corners, that of a disk on a plane the samples
/// of its rim; that of any other face is a walk round its outer loop, if it has
/// one with three corners.
pub proof fn law_regions(
    model: Model,
    face: Face,
    disk: Seq<Point3>,
    walk: Seq<Point3>,
    apart: Seq<Vec<Real>>,
)
    ensures
        face.extent matches FaceExtent::Polygon { points } ==> region(
            model,
            face,
            disk,
            walk,
            apart,
        ) == Some(points@),
        face.extent is Disk && face.geom is Plane ==> region(model, face, disk, walk, apart)
            == Some(disk),
        !(face.extent is Polygon) && !(face.extent is Disk && face.geom is Plane) ==> {
            let c = corners(apart, walk.len() as int);
            &&& region(model, face, disk, walk, apart) is Some <==> live_loop(
                model,
                face.outer_loop,
            ) && c.len() >= 3
            &&& region(model, face, disk, walk, apart) matches Some(polygon) ==> polygon.len()
                == c.len() && forall|i: int|
                0 <= i < c.len() ==> #[trigger] polygon[i] == walk[c[i] as int]
        },
{
}

/// No two neighbouring corners of a walk are on one spot (1e-9), and the last is
/// not on the spot of the first; they are samples of the walk, from its first on.
pub proof fn law_corners_are_apart(apart: Seq<Vec<Real>>, n: int, i: int)
    requires
        0 < n <= usize::MAX,
        0 <= i < corners(apart, n).len(),
    ensures
        corners(apart, n)[0] == 0,
        corners(apart, n)[i] < n,
        i > 0 ==> hair().below(apart[corners(apart, n)[i - 1] as int]@[corners(apart, n)[i] as int]),
{
    let rule = Apart::Above(hair());
    let every = counting(n);
    assert(all_below(every, n));
    lemma_thinned(apart, rule, every, n, n);
    let kept = thinned(apart, rule, every, n);
    law_thinned_is_spaced(apart, rule, every, n, i);
}

// ── Solids ──────────────────────────────────────────────────────────────────

/// A solid that is built of plans has one outer shell, whose `i`-th face is on
/// the surface, looks the way and has the extent that the `i`-th plan says; what
/// was there before is as it was.
pub proof fn law_solids_are_built_as_planned(
    before: Model,
    after: Model,
    plans: Seq<PlanView>,
    name: Option<Seq<char>>,
    ids: BuiltIds,
    i: int,
    old_face: FaceId,
)
    requires
        built(before, after, plans, name, ids),
    ensures
        after.solids.dom().contains(ids.solid),
        after.solids[ids.solid].shells@ == seq![ids.shell],
        name is Some ==> (after.solids[ids.solid].name matches Some(n) && n@ == name->0),
        name is None ==> after.solids[ids.solid].name is None,
        after.shells.dom().contains(ids.shell),
        after.shells[ids.shell].is_outer,
        after.shells[ids.shell].solid == ids.solid,
        after.shells[ids.shell].faces@.len() == plans.len(),
        0 <= i < plans.len() ==> {
            let id = after.shells[ids.shell].faces@[i];
            &&& after.faces.dom().contains(id)
            &&& !before.faces.dom().contains(id)
            &&& after.faces[id].geom == plans[i].geom
            &&& after.faces[id].normal == plans[i].normal
            &&& after.faces[id].extent@ == plans[i].extent
            &&& after.faces[id].shell == ids.shell
            &&& after.faces[id].inner_loops@.len() == 0
        },
        before.faces.dom().contains(old_face) ==> after.faces.dom().contains(old_face)
            && after.faces[old_face] == before.faces[old_face],
        !before.solids.dom().contains(ids.solid),
        !before.shells.dom().contains(ids.shell),
{
    assert(seq![ids.solid][0] == ids.solid);
    assert(seq![ids.shell][0] == ids.shell);
    assert(seq![ids.solid].to_set().contains(ids.solid));
    assert(seq![ids.shell].to_set().contains(ids.shell));
    if 0 <= i < plans.len() {
        assert(ids.faces.to_set().contains(ids.faces[i]));
        assert(as_planned(after.faces[ids.faces[i]], plans[i], ids.loops[i], ids.shell));
    }
}

/// A shell of given faces has these faces, in turn; each of them names the shell,
/// and is else as it was, as is any other face.
pub proof fn law_shells_are_assembled(
    before: Model,
    after: Model,
    listed: Seq<FaceId>,
    name: Option<Seq<char>>,
    shell: ShellId,
    solid: SolidId,
    f: FaceId,
)
    requires
        assembled(before, after, listed, name, shell, solid),
        before.faces.dom().contains(f),
    ensures
        after.shells[shell].faces@ == listed,
        after.shells[shell].solid == solid,
        after.shells[shell].is_outer,
        after.solids[solid].shells@ == seq![shell],
        after.faces.dom().contains(f),
        after.faces[f].geom == before.faces[f].geom,
        after.faces[f].normal == before.faces[f].normal,
        after.faces[f].extent == before.faces[f].extent,
        after.faces[f].outer_loop == before.faces[f].outer_loop,
        after.faces[f].inner_loops == before.faces[f].inner_loops,
        listed.contains(f) ==> after.faces[f].shell == shell,
        !listed.contains(f) ==> after.faces[f] == before.faces[f],
        name is Some ==> (after.solids[solid].name matches Some(n) && n@ == name->0),
        name is None ==> after.solids[solid].name is None,
{
}

/// The rings of a face are those of its loops that can be walked, in turn: loops
/// that are there and start at a use that is there.
pub proof fn law_rings_are_those_that_can_be_walked(model: Model, ids: Seq<LoopId>, k: int)
    requires
        0 <= k <= ids.len(),
    ensures
        ({
            let own = ids.take(k).filter(
                |id: LoopId|
                    model.loops.dom().contains(id) && model.coedges.dom().contains(
                        model.loops[id].start,
                    ),
            );
            &&& live_rings(model, ids, k).len() == own.len()
            &&& forall|i: int|
                0 <= i < own.len() ==> #[trigger] live_rings(model, ids, k)[i] == ring_of(
                    model,
                    own[i],
                )->0
        }),
    decreases k,
{
    let f = |id: LoopId|
        model.loops.dom().contains(id) && model.coedges.dom().contains(model.loops[id].start);
    if k > 0 {
        law_rings_are_those_that_can_be_walked(model, ids, k - 1);
        assert(ids.take(k) =~= ids.take(k - 1).push(ids[k - 1]));
        lemma_filter_push(ids.take(k - 1), ids[k - 1], f);
        let was = live_rings(model, ids, k - 1);
        let now = live_rings(model, ids, k);
        let own = ids.take(k).filter(f);
        assert forall|i: int| 0 <= i < own.len() implies #[trigger] now[i] == ring_of(
            model,
            own[i],
        )->0 by {
            if i < was.len() {
                assert(now[i] == was[i]);
            }
        }
    } else {
        lemma_filter_none(ids.take(0), f);
    }
}

/// The joints of sections are on spots of their own (1e-9), and every end of a
/// curve is on the spot of one.
pub proof fn law_joints_are_spots(points: Seq<Point3>, apart: Seq<Vec<Real>>, p: int)
    requires
        points.len() <= usize::MAX,
        0 <= p < points.len(),
    ensures
        ({
            let kept = singled(apart, hair(), points.len() as int);
            let joints = spots(points, apart);
            &&& joints.len() == kept.len()
            &&& forall|i: int|
                0 <= i < kept.len() ==> #[trigger] joints[i] == points[kept[i] as int]
            &&& kept.contains(p as usize) || exists|i: int|
                0 <= i < kept.len() && apart[(#[trigger] kept[i]) as int]@[p].below(hair())
        }),
{
    law_singled_is_spread(apart, hair(), points.len() as int);
    let kept = singled(apart, hair(), points.len() as int);
    assert(kept.contains(p as usize) || crate::polyline::beside_any(
        apart,
        hair(),
        kept,
        p as usize,
    ));
}

} // verus!
