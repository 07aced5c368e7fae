//! What the vertices, the edges and the bounds of a file say to whoever reads
//! them.

use vstd::prelude::*;

use crate::bounds::{
    arc_key, arc_face_uses, band_ring, cap_uses, circle_key, ellipse_key, face_bounds, finished,
    flag, line_key, no_bounds, ring_bound, ring_sides, ring_vertices, shared_arc, shared_line,
    ArcSheet, CircleSheet, EllipseSheet, Emitted, FaceSheet, SideSheet, StepPoint,
};
use crate::entities::{Face, FaceBoundary, FaceExtent, FaceGeom};
use crate::geometry::{Ellipse3, Point3, UnitVec3};
use crate::growth::{
    grown, lemma_circle_bound, lemma_circle_curve, lemma_ellipse_bound, lemma_face_bounds,
    lemma_grown_chain, lemma_grown_self, lemma_segment, lemma_surface, lemma_vertex, listed,
};
use crate::reading::{
    bound_text, direction_text, edge_text, face_text, is_circle, is_surface, law_conics_read_back,
    law_surfaces_read_back, lemma_bound_text, lemma_circle_text, lemma_edge_text, lemma_face_text,
    lemma_line_text, lemma_loop_text, lemma_placed, lemma_plain_direction_text, lemma_point_text,
    lemma_single_loop_text, lemma_use_text, line_text, loop_text, placed_text, places, point_text,
    says, use_text,
};
use crate::scalar::Real;
use crate::script::Script;
use crate::step::{GridKey, StepCurveKey, StepState, Way};
use crate::step_laws::{after, lines_stay};

verus! {

/// Whether there is an entity for each id.
pub open spec fn counted(s: StepState) -> bool {
    s.lines.len() == s.counter
}

/// Whether a vertex stands at `id`, over its point.
pub open spec fn is_vertex(lines: Seq<Script>, id: int, at: Point3) -> bool {
    &&& says(lines, id, placed_text("VERTEX_POINT"@, id - 1, seq![]))
    &&& says(lines, id - 1, point_text(at, "v"@))
}

/// A point has one vertex: the first time it gets one, over itself, and from then
/// on that is its vertex.
pub proof fn law_vertices_read_back(s: StepState, p: StepPoint)
    requires
        counted(s),
        s.counter + 2 <= usize::MAX,
    ensures
        ({
            let t = s.vertex(p);
            let id = s.vertex_at(p);
            &&& counted(t)
            &&& lines_stay(s, t)
            &&& t.edges == s.edges
            &&& t.uses == s.uses
            &&& t.vertices.dom().contains(p.key) && t.vertices[p.key] == id
            &&& forall|q: GridKey|
                q != p.key ==> (#[trigger] t.vertices.dom().contains(q)
                    == s.vertices.dom().contains(q)) && t.vertices[q] == s.vertices[q]
            &&& s.vertices.dom().contains(p.key) ==> t == s
            &&& !s.vertices.dom().contains(p.key) ==> id == t.counter && t.counter == s.counter + 2
                && is_vertex(t.lines, id as int, p.at)
        }),
{
    if !s.vertices.dom().contains(p.key) {
        lemma_point_text(s, p.at, "v"@);
        let s1 = s.point(p.at, "v"@);
        lemma_placed(s1, "VERTEX_POINT"@, p.at.x, p.at.x);
        let t = s.vertex(p);
        assert(t.lines[s.counter as int] == s1.lines.last());
    }
}

/// Whether an edge curve stands at `id` that runs from one vertex to another
/// along a curve, and is remembered with where it starts.
pub open spec fn is_edge(
    t: StepState,
    key: StepCurveKey,
    from: usize,
    to: usize,
    curve: int,
    same: bool,
    start: usize,
) -> bool {
    &&& t.edges.dom().contains(key)
    &&& t.edges[key].1 == start
    &&& says(t.lines, t.edges[key].0 as int, edge_text(from as int, to as int, curve, same))
}

/// Nothing is remembered or forgotten but the edge curve of a key.
pub open spec fn only_edge(s: StepState, t: StepState, key: StepCurveKey) -> bool {
    forall|k: StepCurveKey|
        k != key ==> (#[trigger] t.edges.dom().contains(k) == s.edges.dom().contains(k))
            && t.edges[k] == s.edges[k]
}

/// Two vertices have one straight edge between them: the first time it is needed
/// it gets an edge curve from the one to the other, along the line through the
/// given point in the given direction.
pub proof fn law_straight_edges_read_back(
    s: StepState,
    at: Point3,
    dir: UnitVec3,
    from: usize,
    to: usize,
    point_label: Seq<char>,
    dir_label: Seq<char>,
)
    requires
        counted(s),
        s.counter + 4 <= usize::MAX,
    ensures
        ({
            let key = StepCurveKey::Line {
                v1: if from < to {
                    from
                } else {
                    to
                },
                v2: if from < to {
                    to
                } else {
                    from
                },
            };
            let t = s.segment(at, dir, from, to, point_label, dir_label);
            let n = t.counter as int;
            &&& counted(t)
            &&& lines_stay(s, t)
            &&& t.vertices == s.vertices
            &&& only_edge(s, t, key)
            &&& s.edges.dom().contains(key) ==> t == s
            &&& !s.edges.dom().contains(key) ==> {
                &&& n == s.counter + 4
                &&& t.edges[key].0 == n
                &&& is_edge(t, key, from, to, n - 1, true, from)
                &&& says(t.lines, n - 1, line_text(n - 3, n - 2))
                &&& says(t.lines, n - 3, point_text(at, point_label))
                &&& says(t.lines, n - 2, direction_text(dir, dir_label))
            }
        }),
{
    if !s.edges.dom().contains(line_key(from, to)) {
        let s1 = s.point(at, point_label);
        let s2 = s1.direction(dir, dir_label);
        let t = s.segment(at, dir, from, to, point_label, dir_label);
        lemma_point_text(s, at, point_label);
        lemma_plain_direction_text(s1, dir, dir_label);
        lemma_line_text(s1.counter, s2.counter);
        lemma_edge_text(from as nat, to as nat, s2.counter + 1, true);
        let n = s.counter as int;
        assert(t.lines[n] == s1.lines.last());
        assert(t.lines[n + 1] == s2.lines.last());
        assert(t.lines[n + 2].glyphs == line_text(n + 1, n + 2));
        assert(t.lines[n + 3].glyphs == edge_text(from as int, to as int, n + 3, true));
    }
}

/// A full circle has one edge curve: the first time it is needed it gets one from
/// its seam to its seam, along the circle about its centre.
pub proof fn law_circles_read_back(
    s: StepState,
    centre: Point3,
    normal: UnitVec3,
    radius: Real,
    sheet: CircleSheet,
    orient: bool,
)
    requires
        counted(s),
        s.counter + 8 <= usize::MAX,
    ensures
        ({
            let key = circle_key(sheet);
            let t = s.circle_curve(centre, normal, radius, sheet, orient);
            let seam = t.vertices[sheet.seam.key];
            let circle = s.counter as int + 5;
            &&& counted(t)
            &&& lines_stay(s, t)
            &&& only_edge(s, t, key)
            &&& s.edges.dom().contains(key) ==> t == s
            &&& !s.edges.dom().contains(key) ==> {
                &&& is_circle(t.lines, circle, centre, normal, sheet.x_dir, radius, ("c"@, "cn"@, "cx"@))
                &&& t.vertices.dom().contains(sheet.seam.key)
                &&& !s.vertices.dom().contains(sheet.seam.key) ==> is_vertex(
                    t.lines,
                    seam as int,
                    sheet.seam.at,
                )
                &&& t.edges[key].0 == t.counter
                &&& is_edge(
                    t,
                    key,
                    seam,
                    seam,
                    circle,
                    true,
                    if orient {
                        1
                    } else {
                        0
                    },
                )
            }
        }),
{
    if !s.edges.dom().contains(circle_key(sheet)) {
        let s1 = s.point(centre, "c"@);
        let s2 = s1.direction(normal, "cn"@);
        let s3 = s2.direction(sheet.x_dir, "cx"@);
        let s4 = s3.placement(""@, s1.counter, s2.counter, s3.counter).over1("CIRCLE"@, radius);
        lemma_circle_text(s, centre, normal, sheet.x_dir, radius, ("c"@, "cn"@, "cx"@));
        law_vertices_read_back(s4, sheet.seam);
        let s5 = s4.vertex(sheet.seam);
        let v = s4.vertex_at(sheet.seam);
        lemma_edge_text(v as nat, v as nat, s4.counter, true);
        let t = s.circle_curve(centre, normal, radius, sheet, orient);
        assert(t.lines == s5.lines.push(t.lines.last()));
        assert forall|i: int| 0 <= i < s5.lines.len() implies t.lines[i] == s5.lines[i] by {}
        assert forall|i: int| 0 <= i < s4.lines.len() implies t.lines[i] == s4.lines[i] by {
            assert(s5.lines[i] == s4.lines[i]);
        }
    }
}

/// A full ellipse has one edge curve: the first time it is needed it gets one
/// from its seam to its seam, along the ellipse with its larger half axis first.
pub proof fn law_ellipses_read_back(
    s: StepState,
    ellipse: Ellipse3,
    sheet: EllipseSheet,
    orient: bool,
)
    requires
        counted(s),
        s.counter + 8 <= usize::MAX,
    ensures
        ({
            let key = ellipse_key(sheet);
            let t = s.ellipse_curve(ellipse, sheet, orient);
            let seam = t.vertices[sheet.seam.key];
            let curve = s.counter as int + 5;
            &&& counted(t)
            &&& lines_stay(s, t)
            &&& only_edge(s, t, key)
            &&& s.edges.dom().contains(key) ==> t == s
            &&& !s.edges.dom().contains(key) ==> {
                &&& says(
                    t.lines,
                    curve,
                    placed_text("ELLIPSE"@, curve - 1, seq![ellipse.semi_major, ellipse.semi_minor]),
                )
                &&& places(t.lines, curve - 1, ellipse.frame, "ellipse_ax"@)
                &&& t.vertices.dom().contains(sheet.seam.key)
                &&& !s.vertices.dom().contains(sheet.seam.key) ==> is_vertex(
                    t.lines,
                    seam as int,
                    sheet.seam.at,
                )
                &&& t.edges[key].0 == t.counter
                &&& is_edge(
                    t,
                    key,
                    seam,
                    seam,
                    curve,
                    true,
                    if orient {
                        1
                    } else {
                        0
                    },
                )
            }
        }),
{
    if !s.edges.dom().contains(ellipse_key(sheet)) {
        let s4 = s.ellipse(ellipse);
        law_conics_read_back(
            s,
            crate::geometry::Circle3 { frame: ellipse.frame, radius: ellipse.semi_major },
            ellipse,
        );
        law_vertices_read_back(s4, sheet.seam);
        let s5 = s4.vertex(sheet.seam);
        let v = s4.vertex_at(sheet.seam);
        lemma_edge_text(v as nat, v as nat, s4.counter, true);
        let t = s.ellipse_curve(ellipse, sheet, orient);
        assert forall|i: int| 0 <= i < s5.lines.len() implies t.lines[i] == s5.lines[i] by {}
        assert forall|i: int| 0 <= i < s4.lines.len() implies t.lines[i] == s4.lines[i] by {
            assert(s5.lines[i] == s4.lines[i]);
        }
    }
}

/// An arc has one edge curve: the first time it is needed it gets one from vertex
/// to vertex along the circle that it is part of, and against it if it turns
/// backward.
pub proof fn law_arcs_read_back(
    s: StepState,
    arc: ArcSheet,
    key: StepCurveKey,
    from: usize,
    to: usize,
)
    requires
        counted(s),
        s.counter + 6 <= usize::MAX,
    ensures
        ({
            let t = s.arc_curve(arc, key, from, to);
            let circle = s.counter as int + 5;
            &&& counted(t)
            &&& lines_stay(s, t)
            &&& t.vertices == s.vertices
            &&& only_edge(s, t, key)
            &&& s.edges.dom().contains(key) ==> t == s
            &&& !s.edges.dom().contains(key) ==> {
                &&& is_circle(
                    t.lines,
                    circle,
                    arc.centre.at,
                    arc.axis,
                    arc.xref,
                    arc.radius,
                    ("rba_c"@, "rba_n"@, "rba_x"@),
                )
                &&& t.edges[key].0 == t.counter
                &&& is_edge(
                    t,
                    key,
                    from,
                    to,
                    circle,
                    (Real { bits: 0 }).at_most(arc.turn),
                    from,
                )
            }
        }),
{
    if !s.edges.dom().contains(key) {
        let same = (Real { bits: 0 }).at_most(arc.turn);
        let s1 = s.point(arc.centre.at, "rba_c"@);
        let s2 = s1.direction(arc.axis, "rba_n"@);
        let s3 = s2.direction(arc.xref, "rba_x"@);
        let s4 = s3.placement(""@, s1.counter, s2.counter, s3.counter).over1("CIRCLE"@, arc.radius);
        lemma_circle_text(
            s,
            arc.centre.at,
            arc.axis,
            arc.xref,
            arc.radius,
            ("rba_c"@, "rba_n"@, "rba_x"@),
        );
        lemma_edge_text(from as nat, to as nat, s4.counter, same);
        let t = s.arc_curve(arc, key, from, to);
        assert forall|i: int| 0 <= i < s4.lines.len() implies t.lines[i] == s4.lines[i] by {}
    }
}

/// An edge curve is used along itself by whoever comes from where it starts, and
/// against itself by whoever comes from elsewhere. A closed one is used by the
/// first its own way, and by any other against the first.
pub proof fn law_uses_read_back(
    s: StepState,
    key: StepCurveKey,
    from: usize,
    first: bool,
    orient: bool,
)
    requires
        counted(s),
    ensures
        ({
            let t = s.used_from(key, from);
            let curve = s.edges[key].0 as int;
            &&& counted(t)
            &&& lines_stay(s, t)
            &&& t.counter == s.counter + 1
            &&& t.edges == s.edges && t.vertices == s.vertices
            &&& s.edges[key].1 == from ==> says(t.lines, t.counter as int, use_text(curve, true))
            &&& s.edges[key].1 != from ==> says(t.lines, t.counter as int, use_text(curve, false))
        }),
        ({
            let t = s.used_closed(key, first, orient);
            let curve = s.edges[key].0 as int;
            &&& counted(t)
            &&& lines_stay(s, t)
            &&& t.counter == s.counter + 1
            &&& t.edges == s.edges && t.vertices == s.vertices
            &&& first ==> says(t.lines, t.counter as int, use_text(curve, orient))
            &&& !first && s.edges[key].1 == 0 ==> says(
                t.lines,
                t.counter as int,
                use_text(curve, true),
            )
            &&& !first && s.edges[key].1 != 0 ==> says(
                t.lines,
                t.counter as int,
                use_text(curve, false),
            )
        }),
{
    let curve = s.edges[key].0 as nat;
    lemma_use_text(curve, true);
    lemma_use_text(curve, false);
}

/// Whether a bound stands at `id`, over the loop before it.
pub open spec fn is_bound(lines: Seq<Script>, id: int, outer: bool, uses: Seq<usize>) -> bool {
    &&& says(lines, id, bound_text(outer, id - 1))
    &&& says(lines, id - 1, loop_text(uses))
}

/// A bound is a loop of the uses that it is made of, in turn.
pub proof fn law_bounds_read_back(s: StepState, uses: Seq<usize>, outer: bool)
    requires
        counted(s),
        s.counter <= usize::MAX,
    ensures
        ({
            let t = s.outer_bound(uses);
            &&& counted(t)
            &&& lines_stay(s, t)
            &&& t.counter == s.counter + 2
            &&& t.edges == s.edges && t.vertices == s.vertices
            &&& is_bound(t.lines, t.counter as int, true, uses)
        }),
        ({
            let t = s.single_bound(outer);
            &&& counted(t)
            &&& lines_stay(s, t)
            &&& t.counter == s.counter + 2
            &&& t.edges == s.edges && t.vertices == s.vertices
            &&& is_bound(t.lines, t.counter as int, outer, seq![s.counter as usize])
        }),
{
    lemma_loop_text(uses);
    lemma_single_loop_text(s.counter as usize);
    lemma_bound_text(outer, s.counter + 1);
    let n = s.counter as int;
    let t = s.outer_bound(uses);
    assert(t.lines[n].glyphs == loop_text(uses));
    assert(t.lines[n + 1].glyphs == bound_text(true, n + 1));
    let u = s.single_bound(outer);
    assert(u.lines[n].glyphs == loop_text(seq![s.counter as usize]));
    assert(u.lines[n + 1].glyphs == bound_text(outer, n + 1));
}

/// Whether a closed bound stands at `id`, over one use of an edge curve.
pub open spec fn is_closed_bound(
    t: StepState,
    id: int,
    outer: bool,
    key: StepCurveKey,
    same: bool,
) -> bool {
    &&& is_bound(t.lines, id, outer, seq![(id - 2) as usize])
    &&& t.edges.dom().contains(key)
    &&& says(t.lines, id - 2, use_text(t.edges[key].0 as int, same))
}

/// One use of a closed edge curve, and the bound that it makes.
proof fn lemma_closed_use(
    s: StepState,
    made: StepState,
    key: StepCurveKey,
    first: bool,
    orient: bool,
    outer: bool,
)
    requires
        counted(made),
        lines_stay(s, made),
        made.counter + 3 <= usize::MAX,
        made.edges.dom().contains(key),
    ensures
        ({
            let t = made.used_closed(key, first, orient).single_bound(outer);
            &&& counted(t)
            &&& lines_stay(s, t)
            &&& lines_stay(made, t)
            &&& t.counter == made.counter + 3
            &&& t.edges == made.edges && t.vertices == made.vertices
            &&& first ==> is_closed_bound(t, t.counter as int, outer, key, orient)
            &&& !first && made.edges[key].1 == 0 ==> is_closed_bound(
                t,
                t.counter as int,
                outer,
                key,
                true,
            )
            &&& !first && made.edges[key].1 != 0 ==> is_closed_bound(
                t,
                t.counter as int,
                outer,
                key,
                false,
            )
        }),
{
    law_uses_read_back(made, key, 0, first, orient);
    let used = made.used_closed(key, first, orient);
    law_bounds_read_back(used, seq![], outer);
    let t = used.single_bound(outer);
    assert(t.lines[used.counter - 1] == used.lines[used.counter - 1]);
    assert forall|i: int| 0 <= i < made.lines.len() implies #[trigger] t.lines[i]
        == made.lines[i] by {
        assert(used.lines[i] == made.lines[i]);
    }
    assert forall|i: int| 0 <= i < s.lines.len() implies #[trigger] t.lines[i] == s.lines[i] by {
        assert(made.lines[i] == s.lines[i]);
    }
}

/// A bound by a circle is one use of the circle's edge curve: its own way if it
/// is the first, and against the first otherwise.
pub proof fn law_circle_bounds_read_back(
    s: StepState,
    centre: Point3,
    normal: UnitVec3,
    radius: Real,
    sheet: CircleSheet,
    outer: bool,
    orient: bool,
)
    requires
        counted(s),
        s.counter + 11 <= usize::MAX,
    ensures
        ({
            let key = circle_key(sheet);
            let made = s.circle_curve(centre, normal, radius, sheet, orient);
            let t = s.circle_bound(centre, normal, radius, sheet, outer, orient);
            &&& counted(t)
            &&& lines_stay(s, t)
            &&& lines_stay(made, t)
            &&& t.counter == made.counter + 3
            &&& t.edges == made.edges && t.vertices == made.vertices
            &&& !s.edges.dom().contains(key) ==> is_closed_bound(
                t,
                t.counter as int,
                outer,
                key,
                orient,
            )
            &&& s.edges.dom().contains(key) && s.edges[key].1 == 0 ==> is_closed_bound(
                t,
                t.counter as int,
                outer,
                key,
                true,
            )
            &&& s.edges.dom().contains(key) && s.edges[key].1 != 0 ==> is_closed_bound(
                t,
                t.counter as int,
                outer,
                key,
                false,
            )
        }),
{
    let key = circle_key(sheet);
    let first = !s.edges.dom().contains(key);
    let made = s.circle_curve(centre, normal, radius, sheet, orient);
    law_circles_read_back(s, centre, normal, radius, sheet, orient);
    assert(made.counter <= s.counter + 8);
    assert(made.edges.dom().contains(key));
    lemma_closed_use(s, made, key, first, orient, outer);
}

/// A bound by an ellipse is one use of the ellipse's edge curve: its own way if
/// it is the first, and against the first otherwise.
pub proof fn law_ellipse_bounds_read_back(
    s: StepState,
    ellipse: Ellipse3,
    sheet: EllipseSheet,
    outer: bool,
    orient: bool,
)
    requires
        counted(s),
        s.counter + 11 <= usize::MAX,
    ensures
        ({
            let key = ellipse_key(sheet);
            let made = s.ellipse_curve(ellipse, sheet, orient);
            let t = s.ellipse_bound(ellipse, sheet, outer, orient);
            &&& counted(t)
            &&& lines_stay(s, t)
            &&& lines_stay(made, t)
            &&& t.counter == made.counter + 3
            &&& t.edges == made.edges && t.vertices == made.vertices
            &&& !s.edges.dom().contains(key) ==> is_closed_bound(
                t,
                t.counter as int,
                outer,
                key,
                orient,
            )
            &&& s.edges.dom().contains(key) && s.edges[key].1 == 0 ==> is_closed_bound(
                t,
                t.counter as int,
                outer,
                key,
                true,
            )
            &&& s.edges.dom().contains(key) && s.edges[key].1 != 0 ==> is_closed_bound(
                t,
                t.counter as int,
                outer,
                key,
                false,
            )
        }),
{
    let key = ellipse_key(sheet);
    let first = !s.edges.dom().contains(key);
    let made = s.ellipse_curve(ellipse, sheet, orient);
    law_ellipses_read_back(s, ellipse, sheet, orient);
    assert(made.counter <= s.counter + 8);
    assert(made.edges.dom().contains(key));
    lemma_closed_use(s, made, key, first, orient, outer);
}

// ── Keys ────────────────────────────────────────────────────────────────────

/// Whether two directions are on one line: the same, or opposite.
pub open spec fn on_one_line(a: GridKey, b: GridKey) -> bool {
    a == b || (a.x == -b.x && a.y == -b.y && a.z == -b.z)
}

/// Circles share their edge curve exactly if they have the same centre and radius
/// and normals on one line; so do ellipses with the same half axes.
pub proof fn law_closed_curves_are_found_again(
    a: CircleSheet,
    b: CircleSheet,
    c: EllipseSheet,
    d: EllipseSheet,
)
    requires
        a.tenths.x > i64::MIN && a.tenths.y > i64::MIN && a.tenths.z > i64::MIN,
        b.tenths.x > i64::MIN && b.tenths.y > i64::MIN && b.tenths.z > i64::MIN,
        c.tenths.x > i64::MIN && c.tenths.y > i64::MIN && c.tenths.z > i64::MIN,
        d.tenths.x > i64::MIN && d.tenths.y > i64::MIN && d.tenths.z > i64::MIN,
    ensures
        circle_key(a) == circle_key(b) <==> a.center == b.center && a.radius_micro
            == b.radius_micro && on_one_line(a.tenths, b.tenths),
        ellipse_key(c) == ellipse_key(d) <==> c.center == d.center && c.semi_major_micro
            == d.semi_major_micro && c.semi_minor_micro == d.semi_minor_micro && on_one_line(
            c.tenths,
            d.tenths,
        ),
        circle_key(a) != ellipse_key(c),
{
}

/// Arcs share their edge curve exactly if they have the same ends, in either
/// order, the same centre and radius, and the same axes; segments if they have
/// the same vertices, in either order.
pub proof fn law_open_curves_are_found_again(
    from: GridKey,
    to: GridKey,
    arc: ArcSheet,
    from2: GridKey,
    to2: GridKey,
    arc2: ArcSheet,
    v1: usize,
    v2: usize,
    w1: usize,
    w2: usize,
)
    ensures
        arc_key(from, to, arc) == arc_key(from2, to2, arc2) <==> (from == from2 && to == to2 || from
            == to2 && to == from2) && arc.centre.key == arc2.centre.key && arc.radius_micro
            == arc2.radius_micro && arc.axis_key == arc2.axis_key && arc.xref_key == arc2.xref_key,
        line_key(v1, v2) == line_key(w1, w2) <==> (v1 == w1 && v2 == w2 || v1 == w2 && v2 == w1),
        line_key(v1, v2) != arc_key(from, to, arc),
{
}

} // verus!
