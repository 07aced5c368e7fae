//! What the faces of a file say to whoever reads them: how they are bounded, on
//! what surface they are, and which of them make up a solid.

use vstd::prelude::*;

use crate::bounds::{
    arc_face_uses, arc_key, band_ring, cap_uses, circle_key, ellipse_key, face_bounds, finished,
    flag, line_key, no_bounds, ring_bound, ring_sides, ring_vertices, shared_arc, shared_line,
    sheet_fits, ArcFaceSheet, ArcSheet, BandSheet, BoundarySheet, CapSheet, CircleSheet,
    EllipseSheet, Emitted, FaceSheet, RingSheet, SideSheet, StepPoint,
};
use crate::brep::Model;
use crate::cut::{live_faces, shell_faces, visited};
use crate::entities::{Face, FaceBoundary, FaceExtent, FaceGeom};
use crate::geometry::{Ellipse3, Point3, UnitVec3};
use crate::growth::{grown, lemma_advanced_face, lemma_face_bounds, lemma_surface, listed};
use crate::ids::{FaceId, ShellId, SolidId};
use crate::reading::{
    face_text, is_circle, is_surface, law_surfaces_read_back, lemma_face_text, placed_text, places,
    says, use_text,
};
use crate::reading_bounds::{
    counted, is_bound, is_closed_bound, is_edge, law_arcs_read_back, law_bounds_read_back,
    law_circle_bounds_read_back, law_circles_read_back, law_ellipse_bounds_read_back,
    law_ellipses_read_back, law_straight_edges_read_back, law_uses_read_back,
    law_vertices_read_back, only_edge,
};
use crate::scalar::Real;
use crate::script::{Glyph, Script};
use crate::step::{GridKey, StepCurveKey, StepState};
use crate::step_laws::{after, lines_stay};
use crate::writer::{shell_emitted, shells_emitted, solid_emitted};

verus! {

/// What is written and what is remembered stays.
pub open spec fn goes_on(s: StepState, t: StepState) -> bool {
    &&& s.counter <= t.counter
    &&& lines_stay(s, t)
    &&& forall|p: GridKey| #[trigger]
        s.vertices.dom().contains(p) ==> t.vertices.dom().contains(p) && t.vertices[p]
            == s.vertices[p]
    &&& forall|k: StepCurveKey| #[trigger]
        s.edges.dom().contains(k) ==> t.edges.dom().contains(k) && t.edges[k] == s.edges[k]
}

/// One thing after another.
pub proof fn lemma_goes_chain(s: StepState, t: StepState, u: StepState)
    requires
        goes_on(s, t),
        goes_on(t, u),
    ensures
        goes_on(s, u),
{
    assert forall|i: int| 0 <= i < s.lines.len() implies #[trigger] u.lines[i] == s.lines[i] by {
        assert(t.lines[i] == s.lines[i]);
    }
}

/// What is said stays said.
pub proof fn lemma_says_on(s: StepState, t: StepState, id: int, text: Seq<Glyph>)
    requires
        goes_on(s, t),
        says(s.lines, id, text),
    ensures
        says(t.lines, id, text),
{
    assert(t.lines[id - 1] == s.lines[id - 1]);
}

/// Whether use `id` runs along the straight edge between two vertices, from the
/// first.
pub open spec fn runs_straight(t: StepState, id: usize, from: usize, to: usize) -> bool {
    let key = StepCurveKey::Line {
        v1: if from < to {
            from
        } else {
            to
        },
        v2: if from < to {
            to
        } else {
            from
        },
    };
    &&& t.edges.dom().contains(key)
    &&& says(t.lines, id as int, use_text(t.edges[key].0 as int, t.edges[key].1 == from))
}

/// Whether a straight edge has been asked for between a state and a later one:
/// through a point, along a direction, between two vertices.
pub open spec fn asked_for(
    s: StepState,
    t: StepState,
    at: Point3,
    dir: UnitVec3,
    from: usize,
    to: usize,
    labels: (Seq<char>, Seq<char>),
) -> bool {
    exists|mid: StepState|
        goes_on(s, mid) && goes_on(#[trigger] mid.segment(at, dir, from, to, labels.0, labels.1), t)
}

/// Whether a vertex has been asked for between a state and a later one.
pub open spec fn placed_at(s: StepState, t: StepState, p: StepPoint, id: usize) -> bool {
    &&& t.vertices.dom().contains(p.key) && t.vertices[p.key] == id
    &&& exists|mid: StepState| goes_on(s, mid) && goes_on(#[trigger] mid.vertex(p), t)
}

/// Whether a side of a ring has an edge: it is not shorter than 1e-7 and has a
/// direction.
pub open spec fn has_edge(side: SideSheet) -> bool {
    !side.length.below(Real { bits: 0x3e7ad7f29abcaf48 }) && side.dir is Some
}

/// How many of the first `k` sides have an edge.
pub open spec fn edges_before(sides: Seq<SideSheet>, k: int) -> int
    decreases k,
{
    if k <= 0 {
        0
    } else {
        edges_before(sides, k - 1) + (if has_edge(sides[k - 1]) {
            1int
        } else {
            0
        })
    }
}

/// The corner after corner `i` of `n`; the first comes after the last.
pub open spec fn next_corner(i: int, n: int) -> int {
    if i == n - 1 {
        0
    } else {
        i + 1
    }
}

proof fn lemma_edges_before(sides: Seq<SideSheet>, i: int, k: int)
    requires
        0 <= i < k,
        has_edge(sides[i]),
    ensures
        0 <= edges_before(sides, i) < edges_before(sides, k),
    decreases k,
{
    lemma_edges_nonneg(sides, i);
    if i + 1 < k {
        lemma_edges_before(sides, i, k - 1);
    }
}

proof fn lemma_edges_nonneg(sides: Seq<SideSheet>, k: int)
    ensures
        0 <= edges_before(sides, k),
        k >= 0 ==> edges_before(sides, k) <= k,
    decreases k,
{
    if k > 0 {
        lemma_edges_nonneg(sides, k - 1);
    }
}

/// Nothing happens.
pub proof fn lemma_goes_self(s: StepState)
    ensures
        goes_on(s, s),
{
}

proof fn lemma_vertex_goes(s: StepState, p: StepPoint)
    requires
        counted(s),
        s.vertex(p).counter <= usize::MAX,
    ensures
        counted(s.vertex(p)),
        goes_on(s, s.vertex(p)),
        placed_at(s, s.vertex(p), p, s.vertex_at(p)),
{
    if s.vertices.dom().contains(p.key) {
        lemma_goes_self(s);
    } else {
        law_vertices_read_back(s, p);
    }
    let t = s.vertex(p);
    lemma_goes_self(s);
    lemma_goes_self(t);
    assert(goes_on(s, s) && goes_on(s.vertex(p), t));
}

proof fn lemma_placed_on(s0: StepState, s: StepState, t: StepState, u: StepState, p: StepPoint, id: usize)
    requires
        goes_on(s0, s),
        placed_at(s, t, p, id),
        goes_on(t, u),
    ensures
        placed_at(s0, u, p, id),
{
    let mid = choose|mid: StepState| goes_on(s, mid) && goes_on(#[trigger] mid.vertex(p), t);
    lemma_goes_chain(s0, s, mid);
    lemma_goes_chain(mid.vertex(p), t, u);
}

proof fn lemma_corners(s: StepState, points: Seq<StepPoint>, k: int)
    requires
        counted(s),
        0 <= k <= points.len(),
        ring_vertices(s, points, k).state.counter <= usize::MAX,
    ensures
        ({
            let done = ring_vertices(s, points, k);
            &&& counted(done.state)
            &&& goes_on(s, done.state)
            &&& done.ids.len() == k
            &&& forall|i: int|
                0 <= i < k ==> placed_at(s, done.state, #[trigger] points[i], done.ids[i])
        }),
    decreases k,
{
    if k <= 0 {
        lemma_goes_self(s);
    } else {
        let was = ring_vertices(s, points, k - 1);
        let now = ring_vertices(s, points, k);
        assert(was.state.counter <= now.state.counter);
        lemma_corners(s, points, k - 1);
        lemma_vertex_goes(was.state, points[k - 1]);
        lemma_goes_chain(s, was.state, now.state);
        assert forall|i: int| 0 <= i < k implies placed_at(
            s,
            now.state,
            #[trigger] points[i],
            now.ids[i],
        ) by {
            if i < k - 1 {
                lemma_goes_self(s);
                lemma_placed_on(s, s, was.state, now.state, points[i], was.ids[i]);
            } else {
                lemma_goes_self(now.state);
                lemma_placed_on(
                    s,
                    was.state,
                    now.state,
                    now.state,
                    points[i],
                    was.state.vertex_at(points[i]),
                );
            }
        }
    }
}

proof fn lemma_run(
    s: StepState,
    at: Point3,
    dir: UnitVec3,
    from: usize,
    to: usize,
    labels: (Seq<char>, Seq<char>),
)
    requires
        counted(s),
        s.segment(at, dir, from, to, labels.0, labels.1).used_from(
            line_key(from, to),
            from,
        ).counter <= usize::MAX,
    ensures
        ({
            let made = s.segment(at, dir, from, to, labels.0, labels.1);
            let u = made.used_from(line_key(from, to), from);
            &&& counted(u)
            &&& goes_on(s, u)
            &&& runs_straight(u, u.counter as usize, from, to)
            &&& asked_for(s, u, at, dir, from, to, labels)
        }),
{
    let key = line_key(from, to);
    let made = s.segment(at, dir, from, to, labels.0, labels.1);
    let u = made.used_from(key, from);
    if !s.edges.dom().contains(key) {
        assert(made.counter == s.counter + 4);
        law_straight_edges_read_back(s, at, dir, from, to, labels.0, labels.1);
    }
    assert(goes_on(s, made));
    assert(made.edges.dom().contains(key));
    law_uses_read_back(made, key, from, true, true);
    assert(goes_on(made, u));
    lemma_goes_chain(s, made, u);
    lemma_goes_self(s);
    assert(goes_on(s, s) && goes_on(s.segment(at, dir, from, to, labels.0, labels.1), u));
}

proof fn lemma_runs_on(t: StepState, u: StepState, id: usize, from: usize, to: usize)
    requires
        goes_on(t, u),
        runs_straight(t, id, from, to),
    ensures
        runs_straight(u, id, from, to),
{
    let key = line_key(from, to);
    lemma_says_on(t, u, id as int, use_text(t.edges[key].0 as int, t.edges[key].1 == from));
}

proof fn lemma_asked_on(
    s0: StepState,
    s: StepState,
    t: StepState,
    u: StepState,
    at: Point3,
    dir: UnitVec3,
    from: usize,
    to: usize,
    labels: (Seq<char>, Seq<char>),
)
    requires
        goes_on(s0, s),
        asked_for(s, t, at, dir, from, to, labels),
        goes_on(t, u),
    ensures
        asked_for(s0, u, at, dir, from, to, labels),
{
    let mid = choose|mid: StepState|
        goes_on(s, mid) && goes_on(
            #[trigger] mid.segment(at, dir, from, to, labels.0, labels.1),
            t,
        );
    lemma_goes_chain(s0, s, mid);
    lemma_goes_chain(mid.segment(at, dir, from, to, labels.0, labels.1), t, u);
}

/// Whether side `i` of a ring is used from its corner to the next, by use `id`.
pub open spec fn side_used(
    s: StepState,
    t: StepState,
    points: Seq<StepPoint>,
    sides: Seq<SideSheet>,
    vertices: Seq<usize>,
    i: int,
    id: usize,
) -> bool {
    let from = vertices[i];
    let to = vertices[next_corner(i, points.len() as int)];
    &&& runs_straight(t, id, from, to)
    &&& asked_for(s, t, points[i].at, sides[i].dir->0, from, to, ("lp"@, "ld"@))
}

proof fn lemma_sides(
    s: StepState,
    points: Seq<StepPoint>,
    sides: Seq<SideSheet>,
    vertices: Seq<usize>,
    k: int,
)
    requires
        counted(s),
        0 <= k <= points.len(),
        ring_sides(s, points, sides, vertices, k).state.counter <= usize::MAX,
    ensures
        ({
            let done = ring_sides(s, points, sides, vertices, k);
            &&& counted(done.state)
            &&& goes_on(s, done.state)
            &&& done.ids.len() == edges_before(sides, k)
            &&& forall|i: int|
                0 <= i < k && has_edge(#[trigger] sides[i]) ==> side_used(
                    s,
                    done.state,
                    points,
                    sides,
                    vertices,
                    i,
                    done.ids[edges_before(sides, i)],
                )
        }),
    decreases k,
{
    if k <= 0 {
        lemma_goes_self(s);
    } else {
        let was = ring_sides(s, points, sides, vertices, k - 1);
        let now = ring_sides(s, points, sides, vertices, k);
        assert(was.state.counter <= now.state.counter);
        lemma_sides(s, points, sides, vertices, k - 1);
        let j = k - 1;
        let labels = ("lp"@, "ld"@);
        if has_edge(sides[j]) {
            let from = vertices[j];
            let to = vertices[next_corner(j, points.len() as int)];
            lemma_run(was.state, points[j].at, sides[j].dir->0, from, to, labels);
            lemma_goes_chain(s, was.state, now.state);
            lemma_goes_self(now.state);
            lemma_asked_on(
                s,
                was.state,
                now.state,
                now.state,
                points[j].at,
                sides[j].dir->0,
                from,
                to,
                labels,
            );
        } else {
            lemma_goes_self(was.state);
        }
        assert forall|i: int| 0 <= i < k && has_edge(#[trigger] sides[i]) implies side_used(
            s,
            now.state,
            points,
            sides,
            vertices,
            i,
            now.ids[edges_before(sides, i)],
        ) by {
            if i < j {
                lemma_edges_before(sides, i, j);
                let from = vertices[i];
                let to = vertices[next_corner(i, points.len() as int)];
                let id = was.ids[edges_before(sides, i)];
                lemma_runs_on(was.state, now.state, id, from, to);
                lemma_goes_self(s);
                lemma_asked_on(
                    s,
                    s,
                    was.state,
                    now.state,
                    points[i].at,
                    sides[i].dir->0,
                    from,
                    to,
                    labels,
                );
            }
        }
    }
}

/// Whether a face has a ring of straight sides as its only bound: one use for
/// each side that has an edge, in turn, from each corner to the next and from the
/// last to the first. Without any such side there is no bound.
pub open spec fn has_ring(
    s: StepState,
    bounds: Emitted,
    points: Seq<StepPoint>,
    sides: Seq<SideSheet>,
) -> bool {
    let t = bounds.state;
    let n = points.len() as int;
    &&& goes_on(s, t)
    &&& edges_before(sides, n) == 0 ==> bounds.ids.len() == 0
    &&& edges_before(sides, n) > 0 ==> {
        &&& bounds.ids == seq![t.counter as usize]
        &&& exists|corners: StepState, vertices: Seq<usize>, uses: Seq<usize>|
            #![trigger side_used(corners, t, points, sides, vertices, 0, uses[0])]
            {
                &&& goes_on(s, corners)
                &&& vertices.len() == n
                &&& forall|i: int|
                    0 <= i < n ==> placed_at(s, t, #[trigger] points[i], vertices[i])
                &&& uses.len() == edges_before(sides, n)
                &&& forall|i: int|
                    0 <= i < n && has_edge(#[trigger] sides[i]) ==> side_used(
                        corners,
                        t,
                        points,
                        sides,
                        vertices,
                        i,
                        uses[edges_before(sides, i)],
                    )
                &&& is_bound(t.lines, t.counter as int, true, uses)
            }
    }
}

/// A ring of straight sides is one bound that goes round it.
pub proof fn law_rings_go_round(s: StepState, points: Seq<StepPoint>, sides: Seq<SideSheet>)
    requires
        counted(s),
        ring_bound(s, points, sides).state.counter <= usize::MAX,
    ensures
        has_ring(s, ring_bound(s, points, sides), points, sides),
        counted(ring_bound(s, points, sides).state),
{
    let n = points.len() as int;
    let corners = ring_vertices(s, points, n);
    let used = ring_sides(corners.state, points, sides, corners.ids, n);
    let bound = ring_bound(s, points, sides);
    let t = bound.state;
    lemma_sides_count(corners.state, points, sides, corners.ids, n);
    assert(used.state.counter <= t.counter);
    lemma_corners(s, points, n);
    lemma_sides(corners.state, points, sides, corners.ids, n);
    lemma_goes_chain(s, corners.state, used.state);
    if used.ids.len() > 0 {
        law_bounds_read_back(used.state, used.ids, true);
        assert(goes_on(used.state, t));
        lemma_goes_chain(corners.state, used.state, t);
        lemma_goes_chain(s, corners.state, t);
        assert forall|i: int| 0 <= i < n implies placed_at(
            s,
            t,
            #[trigger] points[i],
            corners.ids[i],
        ) by {
            lemma_goes_self(s);
            lemma_placed_on(s, s, corners.state, t, points[i], corners.ids[i]);
        }
        assert forall|i: int| 0 <= i < n && has_edge(#[trigger] sides[i]) implies side_used(
            corners.state,
            t,
            points,
            sides,
            corners.ids,
            i,
            used.ids[edges_before(sides, i)],
        ) by {
            let from = corners.ids[i];
            let to = corners.ids[next_corner(i, n)];
            let id = used.ids[edges_before(sides, i)];
            lemma_runs_on(used.state, t, id, from, to);
            lemma_goes_self(corners.state);
            lemma_asked_on(
                corners.state,
                corners.state,
                used.state,
                t,
                points[i].at,
                sides[i].dir->0,
                from,
                to,
                ("lp"@, "ld"@),
            );
        }
        let z = side_used(corners.state, t, points, sides, corners.ids, 0, used.ids[0]);
    } else {
        lemma_edges_nonneg(sides, n);
    }
}

proof fn lemma_sides_count(
    s: StepState,
    points: Seq<StepPoint>,
    sides: Seq<SideSheet>,
    vertices: Seq<usize>,
    k: int,
)
    ensures
        s.counter <= ring_sides(s, points, sides, vertices, k).state.counter,
    decreases k,
{
    if k > 0 {
        lemma_sides_count(s, points, sides, vertices, k - 1);
    }
}

// ── Straight sides and arcs that faces share ────────────────────────────────

/// Whether use `id` runs straight from one point to another.
pub open spec fn used_line(
    s: StepState,
    t: StepState,
    id: usize,
    from: StepPoint,
    to: StepPoint,
    side: SideSheet,
) -> bool {
    let a = t.vertices[from.key];
    let b = t.vertices[to.key];
    &&& t.vertices.dom().contains(from.key) && t.vertices.dom().contains(to.key)
    &&& runs_straight(t, id, a, b)
    &&& side.dir is Some ==> asked_for(
        s,
        t,
        from.at,
        side.dir->0,
        a,
        b,
        ("rbl_p"@, "rbl_d"@),
    )
}

/// Whether use `id` runs along an arc from one point to another.
pub open spec fn used_arc(
    s: StepState,
    t: StepState,
    id: usize,
    from: StepPoint,
    to: StepPoint,
    arc: ArcSheet,
) -> bool {
    let a = t.vertices[from.key];
    let b = t.vertices[to.key];
    let key = arc_key(from.key, to.key, arc);
    &&& t.vertices.dom().contains(from.key) && t.vertices.dom().contains(to.key)
    &&& t.edges.dom().contains(key)
    &&& says(t.lines, id as int, use_text(t.edges[key].0 as int, t.edges[key].1 == a))
    &&& exists|mid: StepState|
        goes_on(s, mid) && goes_on(#[trigger] mid.arc_curve(arc, key, a, b), t)
}

proof fn lemma_used_line_on(
    s0: StepState,
    s: StepState,
    t: StepState,
    u: StepState,
    id: usize,
    from: StepPoint,
    to: StepPoint,
    side: SideSheet,
)
    requires
        goes_on(s0, s),
        used_line(s, t, id, from, to, side),
        goes_on(t, u),
    ensures
        used_line(s0, u, id, from, to, side),
{
    let a = t.vertices[from.key];
    let b = t.vertices[to.key];
    lemma_runs_on(t, u, id, a, b);
    if side.dir is Some {
        lemma_asked_on(s0, s, t, u, from.at, side.dir->0, a, b, ("rbl_p"@, "rbl_d"@));
    }
}

proof fn lemma_used_arc_on(
    s0: StepState,
    s: StepState,
    t: StepState,
    u: StepState,
    id: usize,
    from: StepPoint,
    to: StepPoint,
    arc: ArcSheet,
)
    requires
        goes_on(s0, s),
        used_arc(s, t, id, from, to, arc),
        goes_on(t, u),
    ensures
        used_arc(s0, u, id, from, to, arc),
{
    let a = t.vertices[from.key];
    let b = t.vertices[to.key];
    let key = arc_key(from.key, to.key, arc);
    let mid = choose|mid: StepState|
        goes_on(s, mid) && goes_on(#[trigger] mid.arc_curve(arc, key, a, b), t);
    lemma_goes_chain(s0, s, mid);
    lemma_goes_chain(mid.arc_curve(arc, key, a, b), t, u);
    lemma_says_on(t, u, id as int, use_text(t.edges[key].0 as int, t.edges[key].1 == a));
}

/// Whether a shared straight side is there at all: it is not shorter than 1e-9.
pub open spec fn is_there(side: SideSheet) -> bool {
    !side.length.below(Real { bits: 0x3e112e0be826d695 })
}

/// A shared straight side is used once, from the one point to the other. One that
/// is not there is not used and changes nothing; one without a direction is used
/// if its edge is known, and otherwise not.
pub proof fn law_shared_sides_read_back(
    done: Emitted,
    from: StepPoint,
    to: StepPoint,
    side: SideSheet,
)
    requires
        counted(done.state),
        shared_line(done, from, to, side).state.counter <= usize::MAX,
    ensures
        ({
            let e = shared_line(done, from, to, side);
            &&& counted(e.state)
            &&& goes_on(done.state, e.state)
            &&& !is_there(side) ==> e == done
            &&& is_there(side) && side.dir is Some ==> e.ids == done.ids.push(
                e.state.counter as usize,
            )
            &&& e.ids != done.ids ==> e.ids == done.ids.push(e.state.counter as usize)
                && used_line(done.state, e.state, e.state.counter as usize, from, to, side)
        }),
{
    reveal(shared_line);
    let s = done.state;
    let e = shared_line(done, from, to, side);
    lemma_goes_self(s);
    if is_there(side) {
        let s1 = s.vertex(from);
        let s2 = s1.vertex(to);
        let a = s.vertex_at(from);
        let b = s1.vertex_at(to);
        let labels = ("rbl_p"@, "rbl_d"@);
        assert(s1.counter <= s2.counter <= e.state.counter);
        lemma_vertex_goes(s, from);
        lemma_vertex_goes(s1, to);
        lemma_goes_chain(s, s1, s2);
        if s2.edges.dom().contains(line_key(a, b)) || side.dir is Some {
            lemma_run(s2, from.at, side.dir->0, a, b, labels);
            lemma_goes_chain(s, s2, e.state);
            lemma_goes_self(e.state);
            lemma_asked_on(s, s2, e.state, e.state, from.at, side.dir->0, a, b, labels);
            assert(e.ids == done.ids.push(e.state.counter as usize));
            assert(s1.vertices.dom().contains(from.key));
            assert(s2.vertices[from.key] == a);
        } else {
            assert(e.ids == done.ids);
        }
    }
}

/// A shared arc is used once, from the one point to the other.
pub proof fn law_shared_arcs_read_back(
    done: Emitted,
    from: StepPoint,
    to: StepPoint,
    arc: ArcSheet,
)
    requires
        counted(done.state),
        shared_arc(done, from, to, arc).state.counter <= usize::MAX,
    ensures
        ({
            let e = shared_arc(done, from, to, arc);
            &&& counted(e.state)
            &&& goes_on(done.state, e.state)
            &&& e.ids == done.ids.push(e.state.counter as usize)
            &&& used_arc(done.state, e.state, e.state.counter as usize, from, to, arc)
        }),
{
    reveal(shared_arc);
    let s = done.state;
    let e = shared_arc(done, from, to, arc);
    let s1 = s.vertex(from);
    let s2 = s1.vertex(to);
    let a = s.vertex_at(from);
    let b = s1.vertex_at(to);
    let key = arc_key(from.key, to.key, arc);
    let made = s2.arc_curve(arc, key, a, b);
    assert(s1.counter <= s2.counter <= made.counter);
    lemma_vertex_goes(s, from);
    lemma_vertex_goes(s1, to);
    lemma_goes_chain(s, s1, s2);
    if !s2.edges.dom().contains(key) {
        assert(made.counter == s2.counter + 6);
        law_arcs_read_back(s2, arc, key, a, b);
    }
    assert(goes_on(s2, made));
    law_uses_read_back(made, key, a, true, true);
    assert(goes_on(made, e.state));
    lemma_goes_chain(s, s2, made);
    lemma_goes_chain(s, made, e.state);
    assert(s1.vertices.dom().contains(from.key));
    assert(e.state.vertices[from.key] == a);
    assert(e.state.vertices[to.key] == b);
    assert(goes_on(s, s2) && goes_on(s2.arc_curve(arc, key, a, b), e.state));
}

/// Whether a bound has just these uses.
pub open spec fn bound_of(bounds: Emitted, uses: Seq<usize>) -> bool {
    &&& bounds.ids == seq![bounds.state.counter as usize]
    &&& is_bound(bounds.state.lines, bounds.state.counter as int, true, uses)
}

/// Whether a patch of a cylinder with exact arcs is bounded by four uses in turn,
/// each from where the one before it ended: up, along the top, down, and back
/// along the bottom.
pub open spec fn patch_goes_round(s: StepState, bounds: Emitted, sheet: ArcFaceSheet) -> bool {
    let t = bounds.state;
    &&& goes_on(s, t)
    &&& exists|uses: Seq<usize>| #[trigger]
        bound_of(bounds, uses) && uses.len() == 4 && used_line(
            s,
            t,
            uses[0],
            sheet.start_low,
            sheet.start_high,
            sheet.up,
        ) && used_arc(s, t, uses[1], sheet.start_high, sheet.end_high, sheet.top) && used_line(
            s,
            t,
            uses[2],
            sheet.end_high,
            sheet.end_low,
            sheet.down,
        ) && used_arc(s, t, uses[3], sheet.end_low, sheet.start_low, sheet.bottom)
}

/// A patch of a cylinder with exact arcs has one bound that goes round it.
pub proof fn law_cylinder_patches_go_round(s: StepState, sheet: ArcFaceSheet)
    requires
        counted(s),
        finished(arc_face_uses(no_bounds(s), sheet)).state.counter <= usize::MAX,
        is_there(sheet.up) && sheet.up.dir is Some,
        is_there(sheet.down) && sheet.down.dir is Some,
    ensures
        patch_goes_round(s, finished(arc_face_uses(no_bounds(s), sheet)), sheet),
{
    let e0 = no_bounds(s);
    let e1 = shared_line(e0, sheet.start_low, sheet.start_high, sheet.up);
    let e2 = shared_arc(e1, sheet.start_high, sheet.end_high, sheet.top);
    let e3 = shared_line(e2, sheet.end_high, sheet.end_low, sheet.down);
    let e4 = shared_arc(e3, sheet.end_low, sheet.start_low, sheet.bottom);
    let bounds = finished(e4);
    let t = bounds.state;
    lemma_more_uses(e0, sheet.start_low, sheet.start_high, sheet.up, sheet.top);
    lemma_more_uses(e1, sheet.start_high, sheet.end_high, sheet.up, sheet.top);
    lemma_more_uses(e2, sheet.end_high, sheet.end_low, sheet.down, sheet.top);
    lemma_more_uses(e3, sheet.end_low, sheet.start_low, sheet.up, sheet.bottom);
    assert(e4.state.counter <= t.counter);
    law_shared_sides_read_back(e0, sheet.start_low, sheet.start_high, sheet.up);
    law_shared_arcs_read_back(e1, sheet.start_high, sheet.end_high, sheet.top);
    law_shared_sides_read_back(e2, sheet.end_high, sheet.end_low, sheet.down);
    law_shared_arcs_read_back(e3, sheet.end_low, sheet.start_low, sheet.bottom);
    law_bounds_read_back(e4.state, e4.ids, true);
    assert(e1.ids != e0.ids && e3.ids != e2.ids) by {
        assert(e1.ids.len() == 1 && e3.ids.len() == 3);
    }
    assert(goes_on(e4.state, t));
    lemma_goes_self(s);
    lemma_goes_chain(s, e1.state, e2.state);
    lemma_goes_chain(s, e2.state, e3.state);
    lemma_goes_chain(s, e3.state, e4.state);
    lemma_goes_chain(s, e4.state, t);
    lemma_goes_chain(e3.state, e4.state, t);
    lemma_goes_chain(e2.state, e3.state, t);
    lemma_goes_chain(e1.state, e2.state, t);
    lemma_used_line_on(
        s,
        s,
        e1.state,
        t,
        e4.ids[0],
        sheet.start_low,
        sheet.start_high,
        sheet.up,
    );
    lemma_used_arc_on(
        s,
        e1.state,
        e2.state,
        t,
        e4.ids[1],
        sheet.start_high,
        sheet.end_high,
        sheet.top,
    );
    lemma_used_line_on(
        s,
        e2.state,
        e3.state,
        t,
        e4.ids[2],
        sheet.end_high,
        sheet.end_low,
        sheet.down,
    );
    lemma_used_arc_on(
        s,
        e3.state,
        e4.state,
        t,
        e4.ids[3],
        sheet.end_low,
        sheet.start_low,
        sheet.bottom,
    );
    assert(bound_of(bounds, e4.ids));
}

/// Ids only go up.
proof fn lemma_more_uses(
    done: Emitted,
    from: StepPoint,
    to: StepPoint,
    side: SideSheet,
    arc: ArcSheet,
)
    ensures
        done.state.counter <= shared_line(done, from, to, side).state.counter,
        done.state.counter <= shared_arc(done, from, to, arc).state.counter,
{
    reveal(shared_line);
    reveal(shared_arc);
}

/// From where to where the `j`-th use of a rounded rectangle goes, by its eight
/// points: on from the first for a face that looks along -y, and backward from
/// the first for one that looks along +y.
pub open spec fn cap_step(plus_y: bool, j: int) -> (int, int) {
    if plus_y {
        (if j == 0 {
            0int
        } else {
            8 - j
        }, 7 - j)
    } else {
        (j, if j == 7 {
            0int
        } else {
            j + 1
        })
    }
}

/// Whether use `id` is the `j`-th of a rounded rectangle: from point to point,
/// straight along the sides, and by the arc at the corners. The sides come
/// between points 0 and 1, 2 and 3, 4 and 5, and 6 and 7.
pub open spec fn cap_used(
    s: StepState,
    t: StepState,
    cap: CapSheet,
    plus_y: bool,
    j: int,
    id: usize,
) -> bool {
    let from = cap_step(plus_y, j).0;
    let to = cap_step(plus_y, j).1;
    let lower = if plus_y {
        to
    } else {
        from
    };
    if lower % 2 == 0 {
        used_line(s, t, id, cap.points@[from], cap.points@[to], cap.sides@[lower / 2])
    } else {
        used_arc(s, t, id, cap.points@[from], cap.points@[to], cap.corners@[lower / 2])
    }
}

proof fn lemma_cap_count(s: StepState, cap: CapSheet, plus_y: bool, k: int)
    ensures
        s.counter <= cap_uses(no_bounds(s), cap, plus_y, k).state.counter,
        k > 0 ==> cap_uses(no_bounds(s), cap, plus_y, k - 1).state.counter <= cap_uses(
            no_bounds(s),
            cap,
            plus_y,
            k,
        ).state.counter,
    decreases k,
{
    if k > 0 {
        lemma_cap_count(s, cap, plus_y, k - 1);
        let was = cap_uses(no_bounds(s), cap, plus_y, k - 1);
        let seg = if plus_y {
            8 - k
        } else {
            k - 1
        };
        let low = cap.points@[seg];
        let high = cap.points@[crate::bounds::eighth_after(seg)];
        lemma_more_uses(was, low, high, cap.sides@[seg / 2], cap.corners@[seg / 2]);
        lemma_more_uses(was, high, low, cap.sides@[seg / 2], cap.corners@[seg / 2]);
    }
}

proof fn lemma_cap_used_on(
    s0: StepState,
    s: StepState,
    t: StepState,
    u: StepState,
    cap: CapSheet,
    plus_y: bool,
    j: int,
    id: usize,
)
    requires
        goes_on(s0, s),
        cap_used(s, t, cap, plus_y, j, id),
        goes_on(t, u),
    ensures
        cap_used(s0, u, cap, plus_y, j, id),
{
    let a = cap_step(plus_y, j).0;
    let b = cap_step(plus_y, j).1;
    let lower = if plus_y {
        b
    } else {
        a
    };
    if lower % 2 == 0 {
        lemma_used_line_on(
            s0,
            s,
            t,
            u,
            id,
            cap.points@[a],
            cap.points@[b],
            cap.sides@[lower / 2],
        );
    } else {
        lemma_used_arc_on(
            s0,
            s,
            t,
            u,
            id,
            cap.points@[a],
            cap.points@[b],
            cap.corners@[lower / 2],
        );
    }
}

proof fn lemma_cap_last(s: StepState, cap: CapSheet, plus_y: bool, k: int)
    requires
        0 < k <= 8,
        cap.points@.len() == 8 && cap.sides@.len() == 4 && cap.corners@.len() == 4,
        forall|i: int|
            0 <= i < 4 ==> is_there(#[trigger] cap.sides@[i]) && cap.sides@[i].dir is Some,
        cap_uses(no_bounds(s), cap, plus_y, k).state.counter <= usize::MAX,
        counted(cap_uses(no_bounds(s), cap, plus_y, k - 1).state),
    ensures
        ({
            let was = cap_uses(no_bounds(s), cap, plus_y, k - 1);
            let e = cap_uses(no_bounds(s), cap, plus_y, k);
            &&& counted(e.state)
            &&& goes_on(was.state, e.state)
            &&& e.ids == was.ids.push(e.state.counter as usize)
            &&& cap_used(was.state, e.state, cap, plus_y, k - 1, e.state.counter as usize)
        }),
{
    let was = cap_uses(no_bounds(s), cap, plus_y, k - 1);
    let e = cap_uses(no_bounds(s), cap, plus_y, k);
    let last = k - 1;
    let a = cap_step(plus_y, last).0;
    let b = cap_step(plus_y, last).1;
    let from = cap.points@[a];
    let to = cap.points@[b];
    let seg = if plus_y {
        8 - k
    } else {
        k - 1
    };
    if seg % 2 == 0 {
        let side = cap.sides@[seg / 2];
        assert(is_there(cap.sides@[seg / 2]));
        assert(e == shared_line(was, from, to, side));
        law_shared_sides_read_back(was, from, to, side);
        assert(e.ids.len() == was.ids.len() + 1);
    } else {
        let arc = cap.corners@[seg / 2];
        assert(e == shared_arc(was, from, to, arc));
        law_shared_arcs_read_back(was, from, to, arc);
    }
}

proof fn lemma_cap(s: StepState, cap: CapSheet, plus_y: bool, k: int)
    requires
        counted(s),
        0 <= k <= 8,
        cap.points@.len() == 8 && cap.sides@.len() == 4 && cap.corners@.len() == 4,
        forall|i: int|
            0 <= i < 4 ==> is_there(#[trigger] cap.sides@[i]) && cap.sides@[i].dir is Some,
        cap_uses(no_bounds(s), cap, plus_y, k).state.counter <= usize::MAX,
    ensures
        ({
            let e = cap_uses(no_bounds(s), cap, plus_y, k);
            &&& counted(e.state)
            &&& goes_on(s, e.state)
            &&& e.ids.len() == k
            &&& forall|j: int|
                0 <= j < k ==> cap_used(s, e.state, cap, plus_y, j, #[trigger] e.ids[j])
        }),
    decreases k,
{
    lemma_goes_self(s);
    if k > 0 {
        let was = cap_uses(no_bounds(s), cap, plus_y, k - 1);
        let e = cap_uses(no_bounds(s), cap, plus_y, k);
        lemma_cap_count(s, cap, plus_y, k);
        lemma_cap(s, cap, plus_y, k - 1);
        lemma_cap_last(s, cap, plus_y, k);
        lemma_goes_chain(s, was.state, e.state);
        lemma_goes_self(e.state);
        assert forall|j: int| 0 <= j < k implies cap_used(
            s,
            e.state,
            cap,
            plus_y,
            j,
            #[trigger] e.ids[j],
        ) by {
            if j < k - 1 {
                lemma_cap_used_on(s, s, was.state, e.state, cap, plus_y, j, was.ids[j]);
            } else {
                lemma_cap_used_on(s, was.state, e.state, e.state, cap, plus_y, j, e.ids[j]);
            }
        }
    }
}

/// Whether a rounded rectangle is bounded by eight uses in turn.
pub open spec fn cap_goes_round(
    s: StepState,
    bounds: Emitted,
    cap: CapSheet,
    plus_y: bool,
) -> bool {
    &&& goes_on(s, bounds.state)
    &&& exists|uses: Seq<usize>| #[trigger]
        bound_of(bounds, uses) && uses.len() == 8 && forall|j: int|
            0 <= j < 8 ==> cap_used(s, bounds.state, cap, plus_y, j, #[trigger] uses[j])
}

/// A rounded rectangle is bounded by eight uses in turn, each from where the one
/// before it ended: its sides and its corners. It is gone round one way if it
/// looks along -y, and the other way if it looks along +y.
pub proof fn law_rounded_rectangles_go_round(s: StepState, cap: CapSheet, plus_y: bool)
    requires
        counted(s),
        cap.points@.len() == 8 && cap.sides@.len() == 4 && cap.corners@.len() == 4,
        forall|i: int|
            0 <= i < 4 ==> is_there(#[trigger] cap.sides@[i]) && cap.sides@[i].dir is Some,
        finished(cap_uses(no_bounds(s), cap, plus_y, 8)).state.counter <= usize::MAX,
    ensures
        cap_goes_round(s, finished(cap_uses(no_bounds(s), cap, plus_y, 8)), cap, plus_y),
        forall|j: int|
            0 < j < 8 ==> (#[trigger] cap_step(plus_y, j)).0 == cap_step(plus_y, j - 1).1,
        cap_step(plus_y, 0).0 == cap_step(plus_y, 7).1,
{
    let e = cap_uses(no_bounds(s), cap, plus_y, 8);
    let bounds = finished(e);
    let t = bounds.state;
    assert(e.state.counter <= t.counter);
    lemma_cap(s, cap, plus_y, 8);
    law_bounds_read_back(e.state, e.ids, true);
    assert(goes_on(e.state, t));
    lemma_goes_chain(s, e.state, t);
    lemma_goes_self(s);
    assert forall|j: int| 0 <= j < 8 implies cap_used(
        s,
        t,
        cap,
        plus_y,
        j,
        #[trigger] e.ids[j],
    ) by {
        lemma_cap_used_on(s, s, e.state, t, cap, plus_y, j, e.ids[j]);
    }
    assert(bound_of(bounds, e.ids));
}

} // verus!
