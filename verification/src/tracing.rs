//! Which edge curve each part of a boundary runs along, told from the
//! measurements of the faces alone.

use vstd::prelude::*;

use crate::bounds::{
    ArcFaceSheet, ArcSheet, BoundarySheet, CapSheet, CircleSheet, Emitted, EllipseSheet,
    FaceSheet, NO_LINE, SideSheet, StepPoint, arc_face_uses, arc_key, band_ring, cap_uses,
    circle_key, eighth_after, ellipse_key, face_bounds, finished, line_key, no_bounds, ring_bound,
    ring_sides, ring_vertices, shared_arc, shared_line, side_counts, use_body,
};
use crate::brep::{Model, ring_next};
use crate::cut::{live_faces, shell_faces};
use crate::entities::{Face, FaceBoundary, FaceExtent, FaceGeom};
use crate::file_laws::{
    all_named_plainly, all_shared, law_assembly_edge_curves_are_run_both_ways,
    law_edge_curves_are_run_both_ways, shared_by_two,
};
use crate::geometry::{Ellipse3, Point3, UnitVec3};
use crate::ids::{FaceId, ShellId, SolidId};
use crate::neat::{is_edge_curve, times_said};
use crate::scalar::Real;
use crate::script::Script;
use crate::step::{GridKey, StepCurveKey, StepState, StepUse, Way};
use crate::writer::{
    AssemblyIds, Protocol, assembly_head, assembly_ids, assembly_state, components_emitted,
    lemma_live_place, part_state, products_emitted, shapes_emitted, sheets_fit, shell_emitted,
    shells_emitted, solid_emitted, solids_emitted, solids_named,
};

verus! {

/// A part of a boundary.
pub enum Trace {
    /// A full circle or a full ellipse.
    Round(StepCurveKey),
    /// A straight side.
    Side { from: GridKey, to: GridKey },
    /// An arc.
    Arc { from: GridKey, to: GridKey, key: StepCurveKey },
}

/// Whether two parts of boundaries are the same curve.
pub open spec fn same_trace(a: Trace, b: Trace) -> bool {
    match (a, b) {
        (Trace::Round(k), Trace::Round(l)) => k == l,
        (Trace::Side { from, to }, Trace::Side { from: f, to: t }) => from == f && to == t || from
            == t && to == f,
        (Trace::Arc { from, to, key }, Trace::Arc { from: f, to: t, key: l }) => key == l,
        _ => false,
    }
}

/// Whether two parts of boundaries that are the same curve set out from
/// different ends, if it has ends.
pub open spec fn other_end(a: Trace, b: Trace) -> bool {
    match (a, b) {
        (Trace::Round(k), Trace::Round(l)) => true,
        (Trace::Side { from, to }, Trace::Side { from: f, to: t }) => from != f,
        (Trace::Arc { from, to, key }, Trace::Arc { from: f, to: t, key: l }) => from != f,
        _ => false,
    }
}

/// Whether one part of a boundary is the only other one on its curve, and sets
/// out from the other end.
pub open spec fn mates(all: Seq<Trace>, m: int, n: int) -> bool {
    &&& 0 <= n < all.len()
    &&& n != m
    &&& same_trace(all[m], all[n])
    &&& other_end(all[m], all[n])
    &&& forall|j: int|
        0 <= j < all.len() && j != m && j != n ==> !same_trace(all[m], #[trigger] all[j])
}

/// Whether every curve in some boundaries occurs exactly twice, and is run along
/// from either end if it has ends.
pub open spec fn paired(all: Seq<Trace>) -> bool {
    forall|m: int| 0 <= m < all.len() ==> #[trigger] has_mate(all, m)
}

/// Whether there is exactly one other part of a boundary on the curve of one,
/// and it sets out from the other end.
pub open spec fn has_mate(all: Seq<Trace>, m: int) -> bool {
    exists|n: int| mates(all, m, n)
}

/// What one state remembers, the other does.
spec fn keeps(s: StepState, t: StepState) -> bool {
    &&& s.counter <= t.counter
    &&& forall|p: GridKey| #[trigger]
        s.vertices.dom().contains(p) ==> t.vertices.dom().contains(p) && t.vertices[p]
            == s.vertices[p]
    &&& forall|k: StepCurveKey| #[trigger]
        s.edges.dom().contains(k) ==> t.edges.dom().contains(k) && t.edges[k] == s.edges[k]
}

/// Different places have different vertices and different keys different edge
/// curves, all of them emitted, the curves after the first `c0` entities.
spec fn orderly(s: StepState, c0: nat) -> bool {
    &&& forall|p: GridKey| #[trigger]
        s.vertices.dom().contains(p) ==> 1 <= s.vertices[p] <= s.counter
    &&& forall|p: GridKey, q: GridKey|
        #![trigger s.vertices.dom().contains(p), s.vertices.dom().contains(q)]
        s.vertices.dom().contains(p) && s.vertices.dom().contains(q) && s.vertices[p]
            == s.vertices[q] ==> p == q
    &&& forall|k: StepCurveKey| #[trigger]
        s.edges.dom().contains(k) ==> c0 < s.edges[k].0 <= s.counter
    &&& forall|k: StepCurveKey, l: StepCurveKey|
        #![trigger s.edges.dom().contains(k), s.edges.dom().contains(l)]
        s.edges.dom().contains(k) && s.edges.dom().contains(l) && s.edges[k].0 == s.edges[l].0
            ==> k == l
}

/// By which key a part of a boundary is found, and how it is run along.
spec fn found_by(s: StepState, trace: Trace, key: StepCurveKey, way: Way) -> bool {
    match trace {
        Trace::Round(k) => k == key && (k is Circle || k is Ellipse) && way is Round,
        Trace::Side { from, to } => s.vertices.dom().contains(from) && s.vertices.dom().contains(
            to,
        ) && key == line_key(s.vertices[from], s.vertices[to]) && way == Way::From(
            s.vertices[from],
        ),
        Trace::Arc { from, to, key: k } => k == key && k is Arc && s.vertices.dom().contains(from)
            && way == Way::From(s.vertices[from]),
    }
}

/// Whether a use is that of a part of a boundary.
spec fn use_of(s: StepState, u: StepUse, trace: Trace) -> bool {
    exists|key: StepCurveKey| #[trigger]
        s.edges.dom().contains(key) && u.curve == s.edges[key].0 && found_by(s, trace, key, u.way)
}

/// One state comes after another, with a use for each of some parts of
/// boundaries.
#[verifier::opaque]
spec fn ran(c0: nat, s: StepState, t: StepState, traces: Seq<Trace>) -> bool {
    &&& keeps(s, t)
    &&& t.uses.len() == s.uses.len() + traces.len()
    &&& forall|m: int| 0 <= m < s.uses.len() ==> #[trigger] t.uses[m] == s.uses[m]
    &&& t.counter <= usize::MAX && c0 <= s.counter && orderly(s, c0) ==> orderly(t, c0)
        && forall|m: int|
            0 <= m < traces.len() ==> use_of(t, t.uses[s.uses.len() + m], #[trigger] traces[m])
}

proof fn lemma_use_kept(s: StepState, t: StepState, u: StepUse, trace: Trace)
    requires
        keeps(s, t),
        use_of(s, u, trace),
    ensures
        use_of(t, u, trace),
{
    let key = choose|key: StepCurveKey| #[trigger]
        s.edges.dom().contains(key) && u.curve == s.edges[key].0 && found_by(s, trace, key, u.way);
    assert(t.edges.dom().contains(key));
    assert(found_by(t, trace, key, u.way));
}

proof fn lemma_ran_chain(
    c0: nat,
    s: StepState,
    t: StepState,
    u: StepState,
    a: Seq<Trace>,
    b: Seq<Trace>,
)
    requires
        ran(c0, s, t, a),
        ran(c0, t, u, b),
    ensures
        ran(c0, s, u, a + b),
{
    reveal(ran);
    let all = a + b;
    assert forall|m: int| 0 <= m < s.uses.len() implies #[trigger] u.uses[m] == s.uses[m] by {
        assert(t.uses[m] == s.uses[m]);
    }
    if u.counter <= usize::MAX && c0 <= s.counter && orderly(s, c0) {
        assert forall|m: int| 0 <= m < all.len() implies use_of(
            u,
            u.uses[s.uses.len() + m],
            #[trigger] all[m],
        ) by {
            if m < a.len() {
                assert(use_of(t, t.uses[s.uses.len() + m], a[m]));
                assert(u.uses[s.uses.len() + m] == t.uses[s.uses.len() + m]);
                lemma_use_kept(t, u, t.uses[s.uses.len() + m], a[m]);
            } else {
                assert(use_of(u, u.uses[t.uses.len() + (m - a.len())], b[m - a.len()]));
            }
        }
    }
}

/// Nothing to remember, and no use.
proof fn lemma_ran_quiet(c0: nat, s: StepState, t: StepState)
    requires
        t.vertices == s.vertices,
        t.edges == s.edges,
        t.uses == s.uses,
        s.counter <= t.counter,
    ensures
        ran(c0, s, t, seq![]),
{
    reveal(ran);
}

proof fn lemma_ran_then_quiet(
    c0: nat,
    s: StepState,
    t: StepState,
    u: StepState,
    traces: Seq<Trace>,
)
    requires
        ran(c0, s, t, traces),
        u.vertices == t.vertices,
        u.edges == t.edges,
        u.uses == t.uses,
        t.counter <= u.counter,
    ensures
        ran(c0, s, u, traces),
{
    lemma_ran_quiet(c0, t, u);
    lemma_ran_chain(c0, s, t, u, traces, seq![]);
    assert(traces + seq![] =~= traces);
}

proof fn lemma_quiet_then_ran(
    c0: nat,
    s: StepState,
    t: StepState,
    u: StepState,
    traces: Seq<Trace>,
)
    requires
        t.vertices == s.vertices,
        t.edges == s.edges,
        t.uses == s.uses,
        s.counter <= t.counter,
        ran(c0, t, u, traces),
    ensures
        ran(c0, s, u, traces),
{
    lemma_ran_quiet(c0, s, t);
    lemma_ran_chain(c0, s, t, u, seq![], traces);
    assert(seq![] + traces =~= traces);
}

proof fn lemma_ran_vertex(c0: nat, s: StepState, p: StepPoint)
    ensures
        ran(c0, s, s.vertex(p), seq![]),
        keeps(s, s.vertex(p)),
        s.vertex(p).vertices.dom().contains(p.key),
        s.vertex_at(p) == s.vertex(p).vertices[p.key],
        s.vertex(p).uses == s.uses,
        s.vertex(p).edges == s.edges,
{
    reveal(ran);
}

proof fn lemma_ran_again(c0: nat, s: StepState, key: StepCurveKey, way: Way, same: bool, trace: Trace)
    requires
        s.edges.dom().contains(key),
        found_by(s, trace, key, way),
    ensures
        ran(c0, s, s.oriented(s.edges[key].0, way, same), seq![trace]),
{
    reveal(ran);
    let t = s.oriented(s.edges[key].0, way, same);
    assert(use_of(t, t.uses[s.uses.len() as int], trace)) by {
        assert(t.edges.dom().contains(key));
        assert(found_by(t, trace, key, way));
    }
}

proof fn lemma_ran_new(
    c0: nat,
    s: StepState,
    from: usize,
    to: usize,
    curve: nat,
    along: bool,
    key: StepCurveKey,
    start: usize,
    way: Way,
    same: bool,
    trace: Trace,
)
    requires
        !s.edges.dom().contains(key),
        found_by(s, trace, key, way),
    ensures
        ({
            let m = s.edge_curve(from, to, curve, along).remember(key, start);
            ran(c0, s, m.oriented(m.last(), way, same), seq![trace])
        }),
{
    reveal(ran);
    let m = s.edge_curve(from, to, curve, along).remember(key, start);
    let t = m.oriented(m.last(), way, same);
    assert(use_of(t, t.uses[s.uses.len() as int], trace)) by {
        assert(t.edges.dom().contains(key));
        assert(found_by(t, trace, key, way));
    }
    if t.counter <= usize::MAX && c0 <= s.counter && orderly(s, c0) {
        assert(t.edges[key].0 == s.counter + 1);
        assert(orderly(t, c0));
    }
}

proof fn lemma_ran_segment(
    c0: nat,
    s: StepState,
    at: Point3,
    dir: UnitVec3,
    fk: GridKey,
    tk: GridKey,
    a: Seq<char>,
    b: Seq<char>,
)
    requires
        s.vertices.dom().contains(fk),
        s.vertices.dom().contains(tk),
    ensures
        ({
            let (from, to) = (s.vertices[fk], s.vertices[tk]);
            ran(
                c0,
                s,
                s.segment(at, dir, from, to, a, b).used_from(line_key(from, to), from),
                seq![Trace::Side { from: fk, to: tk }],
            )
        }),
{
    let (from, to) = (s.vertices[fk], s.vertices[tk]);
    let key = line_key(from, to);
    let trace = Trace::Side { from: fk, to: tk };
    let u = s.segment(at, dir, from, to, a, b).used_from(key, from);
    if s.edges.dom().contains(key) {
        lemma_ran_again(c0, s, key, Way::From(from), s.edges[key].1 == from, trace);
    } else {
        let s1 = s.point(at, a);
        let s2 = s1.direction(dir, b);
        let s3 = s2.put(
            Script::empty().text("LINE('',#"@).whole(s1.counter).text(",#"@).whole(
                s2.counter,
            ).text(")"@),
        );
        assert(found_by(s3, trace, key, Way::From(from)));
        lemma_ran_new(
            c0,
            s3,
            from,
            to,
            s3.counter,
            true,
            key,
            from,
            Way::From(from),
            true,
            trace,
        );
        let m = s3.edge_curve(from, to, s3.counter, true).remember(key, from);
        assert(u == m.oriented(m.last(), Way::From(from), true));
        lemma_quiet_then_ran(c0, s, s3, u, seq![trace]);
    }
}

/// The boundary along a closed curve.
pub open spec fn round_traces(boundary: FaceBoundary, sheet: BoundarySheet) -> Seq<Trace> {
    match (boundary, sheet) {
        (FaceBoundary::Circle(c), BoundarySheet::Circle(s)) => seq![Trace::Round(circle_key(s))],
        (FaceBoundary::Ellipse(e), BoundarySheet::Ellipse(s)) => seq![
            Trace::Round(ellipse_key(s)),
        ],
        _ => seq![],
    }
}

proof fn lemma_ran_circle(
    c0: nat,
    s: StepState,
    centre: Point3,
    normal: UnitVec3,
    radius: Real,
    sheet: CircleSheet,
    outer: bool,
    orient: bool,
)
    ensures
        ran(
            c0,
            s,
            s.circle_bound(centre, normal, radius, sheet, outer, orient),
            seq![Trace::Round(circle_key(sheet))],
        ),
{
    let key = circle_key(sheet);
    let trace = Trace::Round(key);
    let first = !s.edges.dom().contains(key);
    let t = s.circle_curve(centre, normal, radius, sheet, orient);
    let u = t.used_closed(key, first, orient);
    if first {
        let s1 = s.point(centre, "c"@);
        let s2 = s1.direction(normal, "cn"@);
        let s3 = s2.direction(sheet.x_dir, "cx"@);
        let s4 = s3.placement(""@, s1.counter, s2.counter, s3.counter).over1("CIRCLE"@, radius);
        let s5 = s4.vertex(sheet.seam);
        let v = s4.vertex_at(sheet.seam);
        let start: usize = if orient {
            1
        } else {
            0
        };
        lemma_ran_vertex(c0, s4, sheet.seam);
        lemma_quiet_then_ran(c0, s, s4, s5, seq![]);
        lemma_ran_new(c0, s5, v, v, s4.counter, true, key, start, Way::Round, orient, trace);
        let m = s5.edge_curve(v, v, s4.counter, true).remember(key, start);
        assert(u == m.oriented(m.last(), Way::Round, orient));
        lemma_ran_chain(c0, s, s5, u, seq![], seq![trace]);
        assert(seq![] + seq![trace] =~= seq![trace]);
    } else {
        lemma_ran_again(c0, s, key, Way::Round, s.edges[key].1 == 0, trace);
    }
    lemma_ran_then_quiet(c0, s, u, u.single_bound(outer), seq![trace]);
}

proof fn lemma_ran_ellipse(
    c0: nat,
    s: StepState,
    ellipse: Ellipse3,
    sheet: EllipseSheet,
    outer: bool,
    orient: bool,
)
    ensures
        ran(
            c0,
            s,
            s.ellipse_bound(ellipse, sheet, outer, orient),
            seq![Trace::Round(ellipse_key(sheet))],
        ),
{
    let key = ellipse_key(sheet);
    let trace = Trace::Round(key);
    let first = !s.edges.dom().contains(key);
    let t = s.ellipse_curve(ellipse, sheet, orient);
    let u = t.used_closed(key, first, orient);
    if first {
        let s1 = s.ellipse(ellipse);
        let s2 = s1.vertex(sheet.seam);
        let v = s1.vertex_at(sheet.seam);
        let start: usize = if orient {
            1
        } else {
            0
        };
        lemma_ran_vertex(c0, s1, sheet.seam);
        lemma_quiet_then_ran(c0, s, s1, s2, seq![]);
        lemma_ran_new(c0, s2, v, v, s1.counter, true, key, start, Way::Round, orient, trace);
        let m = s2.edge_curve(v, v, s1.counter, true).remember(key, start);
        assert(u == m.oriented(m.last(), Way::Round, orient));
        lemma_ran_chain(c0, s, s2, u, seq![], seq![trace]);
        assert(seq![] + seq![trace] =~= seq![trace]);
    } else {
        lemma_ran_again(c0, s, key, Way::Round, s.edges[key].1 == 0, trace);
    }
    lemma_ran_then_quiet(c0, s, u, u.single_bound(outer), seq![trace]);
}

proof fn lemma_ran_boundary(
    c0: nat,
    s: StepState,
    boundary: FaceBoundary,
    sheet: BoundarySheet,
    outer: bool,
    orient: bool,
)
    ensures
        ran(c0, s, s.boundary(boundary, sheet, outer, orient), round_traces(boundary, sheet)),
{
    match (boundary, sheet) {
        (FaceBoundary::Circle(c), BoundarySheet::Circle(b)) => {
            lemma_ran_circle(c0, s, c.frame.origin, c.frame.z, c.radius, b, outer, orient);
        },
        (FaceBoundary::Ellipse(e), BoundarySheet::Ellipse(b)) => {
            lemma_ran_ellipse(c0, s, e, b, outer, orient);
        },
        _ => {
            lemma_ran_quiet(c0, s, s);
        },
    }
}

/// The sides of a ring up to side `k`; those without length are none.
pub open spec fn ring_traces(points: Seq<StepPoint>, sides: Seq<SideSheet>, k: int) -> Seq<Trace>
    decreases k,
{
    if k <= 0 {
        seq![]
    } else {
        let i = k - 1;
        let rest = ring_traces(points, sides, i);
        if side_counts(sides[i]) {
            rest.push(
                Trace::Side {
                    from: points[i].key,
                    to: points[ring_next(i, points.len() as int)].key,
                },
            )
        } else {
            rest
        }
    }
}

/// Whether ids are those of the vertices at some points.
spec fn at_vertices(s: StepState, points: Seq<StepPoint>, ids: Seq<usize>) -> bool {
    forall|i: int|
        0 <= i < ids.len() ==> s.vertices.dom().contains((#[trigger] points[i]).key)
            && s.vertices[points[i].key] == ids[i]
}

proof fn lemma_ran_corners(c0: nat, s: StepState, points: Seq<StepPoint>, k: int)
    requires
        0 <= k <= points.len(),
    ensures
        ran(c0, s, ring_vertices(s, points, k).state, seq![]),
        ring_vertices(s, points, k).ids.len() == k,
        at_vertices(ring_vertices(s, points, k).state, points, ring_vertices(s, points, k).ids),
    decreases k,
{
    if k <= 0 {
        lemma_ran_quiet(c0, s, s);
    } else {
        let done = ring_vertices(s, points, k - 1);
        let now = ring_vertices(s, points, k);
        let t = done.state;
        lemma_ran_corners(c0, s, points, k - 1);
        lemma_ran_vertex(c0, t, points[k - 1]);
        lemma_ran_chain(c0, s, t, now.state, seq![], seq![]);
        assert(seq![] + seq![] =~= Seq::<Trace>::empty());
        assert forall|i: int| 0 <= i < now.ids.len() implies now.state.vertices.dom().contains(
            (#[trigger] points[i]).key,
        ) && now.state.vertices[points[i].key] == now.ids[i] by {
            if i < k - 1 {
                assert(t.vertices.dom().contains(points[i].key));
                assert(now.ids[i] == done.ids[i]);
            }
        }
    }
}

proof fn lemma_ran_sides(
    c0: nat,
    s: StepState,
    points: Seq<StepPoint>,
    sides: Seq<SideSheet>,
    vertices: Seq<usize>,
    k: int,
)
    requires
        0 <= k <= points.len(),
        vertices.len() == points.len(),
        at_vertices(s, points, vertices),
    ensures
        ran(c0, s, ring_sides(s, points, sides, vertices, k).state, ring_traces(points, sides, k)),
        at_vertices(ring_sides(s, points, sides, vertices, k).state, points, vertices),
    decreases k,
{
    if k <= 0 {
        lemma_ran_quiet(c0, s, s);
    } else {
        let i = k - 1;
        let t = ring_sides(s, points, sides, vertices, i).state;
        let u = ring_sides(s, points, sides, vertices, k).state;
        lemma_ran_sides(c0, s, points, sides, vertices, i);
        if side_counts(sides[i]) {
            let next = ring_next(i, points.len() as int);
            assert(t.vertices.dom().contains(points[i].key));
            assert(t.vertices.dom().contains(points[next].key));
            let trace = Trace::Side { from: points[i].key, to: points[next].key };
            lemma_ran_segment(
                c0,
                t,
                points[i].at,
                sides[i].dir->0,
                points[i].key,
                points[next].key,
                "lp"@,
                "ld"@,
            );
            let rest = ring_traces(points, sides, i);
            lemma_ran_chain(c0, s, t, u, rest, seq![trace]);
            assert(rest + seq![trace] =~= rest.push(trace));
            assert(keeps(t, u)) by {
                reveal(ran);
            }
        }
    }
}

proof fn lemma_ran_finished(c0: nat, s: StepState, done: Emitted, traces: Seq<Trace>)
    requires
        ran(c0, s, done.state, traces),
    ensures
        ran(c0, s, finished(done).state, traces),
{
    if done.ids.len() > 0 {
        lemma_ran_then_quiet(c0, s, done.state, finished(done).state, traces);
    }
}

proof fn lemma_ran_ring(c0: nat, s: StepState, points: Seq<StepPoint>, sides: Seq<SideSheet>)
    ensures
        ran(
            c0,
            s,
            ring_bound(s, points, sides).state,
            ring_traces(points, sides, points.len() as int),
        ),
{
    let n = points.len() as int;
    let corners = ring_vertices(s, points, n);
    let uses = ring_sides(corners.state, points, sides, corners.ids, n);
    let traces = ring_traces(points, sides, n);
    lemma_ran_corners(c0, s, points, n);
    lemma_ran_sides(c0, corners.state, points, sides, corners.ids, n);
    lemma_ran_chain(c0, s, corners.state, uses.state, seq![], traces);
    assert(seq![] + traces =~= traces);
    lemma_ran_finished(c0, s, uses, traces);
}

/// A shared straight edge, unless it is too short.
pub open spec fn line_traces(from: StepPoint, to: StepPoint, side: SideSheet) -> Seq<Trace> {
    if side.length.below(Real { bits: NO_LINE }) {
        seq![]
    } else {
        seq![Trace::Side { from: from.key, to: to.key }]
    }
}

/// Whether a side has a direction, unless it is too short.
pub open spec fn side_known(side: SideSheet) -> bool {
    side.length.below(Real { bits: NO_LINE }) || side.dir is Some
}

/// A shared arc.
pub open spec fn arc_traces(from: StepPoint, to: StepPoint, arc: ArcSheet) -> Seq<Trace> {
    seq![Trace::Arc { from: from.key, to: to.key, key: arc_key(from.key, to.key, arc) }]
}

proof fn lemma_ran_line(c0: nat, done: Emitted, from: StepPoint, to: StepPoint, side: SideSheet)
    requires
        side_known(side),
    ensures
        ran(
            c0,
            done.state,
            shared_line(done, from, to, side).state,
            line_traces(from, to, side),
        ),
{
    reveal(shared_line);
    let s = done.state;
    if side.length.below(Real { bits: NO_LINE }) {
        lemma_ran_quiet(c0, s, s);
    } else {
        let s1 = s.vertex(from);
        let s2 = s1.vertex(to);
        let u = shared_line(done, from, to, side).state;
        let trace = Trace::Side { from: from.key, to: to.key };
        lemma_ran_vertex(c0, s, from);
        lemma_ran_vertex(c0, s1, to);
        lemma_ran_chain(c0, s, s1, s2, seq![], seq![]);
        lemma_ran_segment(
            c0,
            s2,
            from.at,
            side.dir->0,
            from.key,
            to.key,
            "rbl_p"@,
            "rbl_d"@,
        );
        lemma_ran_chain(c0, s, s2, u, seq![] + seq![], seq![trace]);
        assert(seq![] + seq![] + seq![trace] =~= seq![trace]);
    }
}

proof fn lemma_ran_arc(c0: nat, done: Emitted, from: StepPoint, to: StepPoint, arc: ArcSheet)
    ensures
        ran(c0, done.state, shared_arc(done, from, to, arc).state, arc_traces(from, to, arc)),
{
    reveal(shared_arc);
    let s = done.state;
    let s1 = s.vertex(from);
    let v_from = s.vertex_at(from);
    let s2 = s1.vertex(to);
    let v_to = s1.vertex_at(to);
    let key = arc_key(from.key, to.key, arc);
    let trace = Trace::Arc { from: from.key, to: to.key, key };
    let u = shared_arc(done, from, to, arc).state;
    lemma_ran_vertex(c0, s, from);
    lemma_ran_vertex(c0, s1, to);
    lemma_ran_chain(c0, s, s1, s2, seq![], seq![]);
    assert(s2.vertices[from.key] == v_from);
    if s2.edges.dom().contains(key) {
        lemma_ran_again(c0, s2, key, Way::From(v_from), s2.edges[key].1 == v_from, trace);
    } else {
        let a1 = s2.point(arc.centre.at, "rba_c"@);
        let a2 = a1.direction(arc.axis, "rba_n"@);
        let a3 = a2.direction(arc.xref, "rba_x"@);
        let a5 = a3.placement(""@, a1.counter, a2.counter, a3.counter).over1(
            "CIRCLE"@,
            arc.radius,
        );
        let along = (Real { bits: 0 }).at_most(arc.turn);
        lemma_ran_new(
            c0,
            a5,
            v_from,
            v_to,
            a5.counter,
            along,
            key,
            v_from,
            Way::From(v_from),
            true,
            trace,
        );
        let m = a5.edge_curve(v_from, v_to, a5.counter, along).remember(key, v_from);
        assert(u == m.oriented(m.last(), Way::From(v_from), true));
        lemma_quiet_then_ran(c0, s2, a5, u, seq![trace]);
    }
    lemma_ran_chain(c0, s, s2, u, seq![] + seq![], seq![trace]);
    assert(seq![] + seq![] + seq![trace] =~= seq![trace]);
}

/// The first `k` segments of a rounded rectangle.
pub open spec fn cap_traces(cap: CapSheet, plus_y: bool, k: int) -> Seq<Trace>
    decreases k,
{
    if k <= 0 {
        seq![]
    } else {
        let seg = if plus_y {
            8 - k
        } else {
            k - 1
        };
        let low = cap.points@[seg];
        let high = cap.points@[eighth_after(seg)];
        let from = if plus_y {
            high
        } else {
            low
        };
        let to = if plus_y {
            low
        } else {
            high
        };
        cap_traces(cap, plus_y, k - 1) + (if seg % 2 == 1 {
            arc_traces(from, to, cap.corners@[seg / 2])
        } else {
            line_traces(from, to, cap.sides@[seg / 2])
        })
    }
}

/// Whether the sides of a rounded rectangle have directions.
pub open spec fn cap_known(cap: CapSheet) -> bool {
    forall|i: int| 0 <= i < 4 ==> side_known(#[trigger] cap.sides@[i])
}

proof fn lemma_ran_cap(c0: nat, done: Emitted, cap: CapSheet, plus_y: bool, k: int)
    requires
        0 <= k <= 8,
        cap_known(cap),
    ensures
        ran(c0, done.state, cap_uses(done, cap, plus_y, k).state, cap_traces(cap, plus_y, k)),
    decreases k,
{
    if k <= 0 {
        lemma_ran_quiet(c0, done.state, done.state);
    } else {
        let so_far = cap_uses(done, cap, plus_y, k - 1);
        lemma_ran_cap(c0, done, cap, plus_y, k - 1);
        let seg = if plus_y {
            8 - k
        } else {
            k - 1
        };
        let low = cap.points@[seg];
        let high = cap.points@[eighth_after(seg)];
        let from = if plus_y {
            high
        } else {
            low
        };
        let to = if plus_y {
            low
        } else {
            high
        };
        let rest = cap_traces(cap, plus_y, k - 1);
        if seg % 2 == 1 {
            lemma_ran_arc(c0, so_far, from, to, cap.corners@[seg / 2]);
            lemma_ran_chain(
                c0,
                done.state,
                so_far.state,
                cap_uses(done, cap, plus_y, k).state,
                rest,
                arc_traces(from, to, cap.corners@[seg / 2]),
            );
        } else {
            assert(side_known(cap.sides@[seg / 2]));
            lemma_ran_line(c0, so_far, from, to, cap.sides@[seg / 2]);
            lemma_ran_chain(
                c0,
                done.state,
                so_far.state,
                cap_uses(done, cap, plus_y, k).state,
                rest,
                line_traces(from, to, cap.sides@[seg / 2]),
            );
        }
    }
}

/// The four edges of a cylinder patch.
pub open spec fn arc_face_traces(sheet: ArcFaceSheet) -> Seq<Trace> {
    line_traces(sheet.start_low, sheet.start_high, sheet.up) + arc_traces(
        sheet.start_high,
        sheet.end_high,
        sheet.top,
    ) + line_traces(sheet.end_high, sheet.end_low, sheet.down) + arc_traces(
        sheet.end_low,
        sheet.start_low,
        sheet.bottom,
    )
}

proof fn lemma_ran_arc_face(c0: nat, done: Emitted, sheet: ArcFaceSheet)
    requires
        side_known(sheet.up),
        side_known(sheet.down),
    ensures
        ran(c0, done.state, arc_face_uses(done, sheet).state, arc_face_traces(sheet)),
{
    let s = done.state;
    let e1 = shared_line(done, sheet.start_low, sheet.start_high, sheet.up);
    let e2 = shared_arc(e1, sheet.start_high, sheet.end_high, sheet.top);
    let e3 = shared_line(e2, sheet.end_high, sheet.end_low, sheet.down);
    let e4 = shared_arc(e3, sheet.end_low, sheet.start_low, sheet.bottom);
    let t1 = line_traces(sheet.start_low, sheet.start_high, sheet.up);
    let t2 = arc_traces(sheet.start_high, sheet.end_high, sheet.top);
    let t3 = line_traces(sheet.end_high, sheet.end_low, sheet.down);
    let t4 = arc_traces(sheet.end_low, sheet.start_low, sheet.bottom);
    lemma_ran_line(c0, done, sheet.start_low, sheet.start_high, sheet.up);
    lemma_ran_arc(c0, e1, sheet.start_high, sheet.end_high, sheet.top);
    lemma_ran_line(c0, e2, sheet.end_high, sheet.end_low, sheet.down);
    lemma_ran_arc(c0, e3, sheet.end_low, sheet.start_low, sheet.bottom);
    lemma_ran_chain(c0, s, e1.state, e2.state, t1, t2);
    lemma_ran_chain(c0, s, e2.state, e3.state, t1 + t2, t3);
    lemma_ran_chain(c0, s, e3.state, e4.state, t1 + t2 + t3, t4);
}

/// The boundary of a face: which curves it runs along, in turn.
pub open spec fn face_traces(face: Face, sheet: FaceSheet) -> Seq<Trace> {
    match (face.extent, sheet) {
        (FaceExtent::Cylinder { length, start, end }, FaceSheet::Two { start: s, end: e }) =>
            if face.geom is Cylinder {
            round_traces(start, s) + round_traces(end, e)
        } else {
            seq![]
        },
        (
            FaceExtent::PartialCylinder { length, arc_start_angle, arc_end_angle, arc_ref_dir },
            FaceSheet::Band(band),
        ) => if face.geom is Cylinder && band_ring(band).len() >= 3 {
            ring_traces(band_ring(band), band.sides@, band_ring(band).len() as int)
        } else {
            seq![]
        },
        (FaceExtent::Disk { radius }, FaceSheet::One(BoundarySheet::Circle(c))) => if face.geom
            is Plane {
            seq![Trace::Round(circle_key(c))]
        } else {
            seq![]
        },
        (
            FaceExtent::PartialDisk { radius, start_angle, end_angle },
            FaceSheet::Ring(Some(ring)),
        ) => if face.geom is Plane {
            ring_traces(ring.points@, ring.sides@, ring.points@.len() as int)
        } else {
            seq![]
        },
        (
            FaceExtent::TorusFillet { start_circle, end_circle },
            FaceSheet::Two { start: s, end: e },
        ) => round_traces(FaceBoundary::Circle(start_circle), s) + round_traces(
            FaceBoundary::Circle(end_circle),
            e,
        ),
        (FaceExtent::PlanarBoundary { boundary }, FaceSheet::One(b)) => if face.geom is Plane {
            round_traces(boundary, b)
        } else {
            seq![]
        },
        (FaceExtent::Polygon { points }, FaceSheet::Ring(Some(ring))) => if points@.len() >= 3 {
            ring_traces(ring.points@, ring.sides@, ring.points@.len() as int)
        } else {
            seq![]
        },
        (
            FaceExtent::RoundedRectCap { xmin, xmax, zmin, zmax, radius, y, plus_y },
            FaceSheet::Cap(cap),
        ) => cap_traces(cap, plus_y, 8),
        (
            FaceExtent::CylinderArcFace { length, arc_start_angle, arc_end_angle, arc_ref_dir },
            FaceSheet::ArcFace(Some(arc_face)),
        ) => if face.geom is Cylinder {
            arc_face_traces(arc_face)
        } else {
            seq![]
        },
        _ => seq![],
    }
}

/// Whether the straight sides of a face have directions.
pub open spec fn face_known(sheet: FaceSheet) -> bool {
    match sheet {
        FaceSheet::Cap(cap) => cap_known(cap),
        FaceSheet::ArcFace(Some(arc)) => side_known(arc.up) && side_known(arc.down),
        _ => true,
    }
}

proof fn lemma_ran_two(
    c0: nat,
    s: StepState,
    a: FaceBoundary,
    sa: BoundarySheet,
    b: FaceBoundary,
    sb: BoundarySheet,
)
    ensures
        ran(
            c0,
            s,
            s.boundary(a, sa, true, true).boundary(b, sb, false, false),
            round_traces(a, sa) + round_traces(b, sb),
        ),
{
    let t = s.boundary(a, sa, true, true);
    lemma_ran_boundary(c0, s, a, sa, true, true);
    lemma_ran_boundary(c0, t, b, sb, false, false);
    lemma_ran_chain(
        c0,
        s,
        t,
        t.boundary(b, sb, false, false),
        round_traces(a, sa),
        round_traces(b, sb),
    );
}

proof fn lemma_ran_bounds(c0: nat, s: StepState, face: Face, sheet: FaceSheet)
    requires
        face_known(sheet),
    ensures
        ran(c0, s, face_bounds(s, face, sheet).state, face_traces(face, sheet)),
{
    lemma_ran_quiet(c0, s, s);
    match (face.extent, sheet) {
        (FaceExtent::Cylinder { length, start: a, end: b }, FaceSheet::Two { start, end }) => {
            lemma_ran_two(c0, s, a, start, b, end);
        },
        (
            FaceExtent::TorusFillet { start_circle, end_circle },
            FaceSheet::Two { start, end },
        ) => {
            lemma_ran_two(
                c0,
                s,
                FaceBoundary::Circle(start_circle),
                start,
                FaceBoundary::Circle(end_circle),
                end,
            );
        },
        (FaceExtent::PlanarBoundary { boundary }, FaceSheet::One(b)) => {
            lemma_ran_boundary(c0, s, boundary, b, true, true);
        },
        (FaceExtent::Disk { radius }, FaceSheet::One(BoundarySheet::Circle(c))) => {
            if let FaceGeom::Plane(p) = face.geom {
                lemma_ran_circle(c0, s, p.frame.origin, p.frame.z, radius, c, true, true);
            }
        },
        (_, FaceSheet::Ring(Some(ring))) => {
            lemma_ran_ring(c0, s, ring.points@, ring.sides@);
        },
        (_, FaceSheet::Band(band)) => {
            lemma_ran_ring(c0, s, band_ring(band), band.sides@);
        },
        (_, FaceSheet::ArcFace(Some(arc))) => {
            lemma_ran_arc_face(c0, no_bounds(s), arc);
            lemma_ran_finished(c0, s, arc_face_uses(no_bounds(s), arc), arc_face_traces(arc));
        },
        (_, FaceSheet::Cap(cap)) => {
            lemma_ran_cap(c0, no_bounds(s), cap, true, 8);
            lemma_ran_cap(c0, no_bounds(s), cap, false, 8);
            lemma_ran_finished(
                c0,
                s,
                cap_uses(no_bounds(s), cap, true, 8),
                cap_traces(cap, true, 8),
            );
            lemma_ran_finished(
                c0,
                s,
                cap_uses(no_bounds(s), cap, false, 8),
                cap_traces(cap, false, 8),
            );
        },
        _ => {},
    }
}

proof fn lemma_ran_face(c0: nat, s: StepState, face: Face, sheet: FaceSheet)
    requires
        face_known(sheet),
    ensures
        ran(c0, s, s.advanced_face(face, sheet), face_traces(face, sheet)),
{
    reveal(StepState::advanced_face);
    let t = s.surface(face.geom);
    let b = face_bounds(t, face, sheet);
    let traces = face_traces(face, sheet);
    lemma_ran_bounds(c0, t, face, sheet);
    lemma_quiet_then_ran(c0, s, t, b.state, traces);
    lemma_ran_then_quiet(c0, s, b.state, s.advanced_face(face, sheet), traces);
}

/// The boundaries of the first `j` faces of a shell; `sheets` measure the faces
/// of the solid, of which `offset` come before this shell.
pub open spec fn shell_traces(
    faces: Map<FaceId, Face>,
    ids: Seq<FaceId>,
    sheets: Seq<FaceSheet>,
    offset: int,
    j: int,
) -> Seq<Trace>
    decreases j,
{
    if j <= 0 {
        seq![]
    } else {
        let rest = shell_traces(faces, ids, sheets, offset, j - 1);
        if faces.dom().contains(ids[j - 1]) {
            let k = offset + live_faces(faces, ids.take(j - 1)).len();
            rest + face_traces(faces[ids[j - 1]], sheets[k])
        } else {
            rest
        }
    }
}

/// Whether shell `i` of a solid is closed: in the boundaries of its faces every
/// curve occurs exactly twice.
pub open spec fn shell_closed(
    model: Model,
    shells: Seq<ShellId>,
    sheets: Seq<FaceSheet>,
    i: int,
) -> bool {
    model.shells.dom().contains(shells[i]) ==> {
        let ids = model.shells[shells[i]].faces@;
        let offset = shell_faces(model, shells.take(i)).len() as int;
        paired(shell_traces(model.faces, ids, sheets, offset, ids.len() as int))
    }
}

/// Whether every shell of a solid is closed, as its sheets show it.
pub open spec fn solid_closed(model: Model, solid: SolidId, sheets: Seq<FaceSheet>) -> bool {
    model.solids.dom().contains(solid) ==> {
        let shells = model.solids[solid].shells@;
        &&& sheets_fit(model, solid, sheets)
        &&& forall|k: int| 0 <= k < sheets.len() ==> face_known(#[trigger] sheets[k])
        &&& forall|i: int|
            0 <= i < shells.len() ==> #[trigger] shell_closed(model, shells, sheets, i)
    }
}

/// Whether all of some solids are closed.
pub open spec fn solids_closed(
    model: Model,
    ids: Seq<SolidId>,
    sheets: Seq<Vec<FaceSheet>>,
) -> bool {
    forall|k: int|
        0 <= k < ids.len() ==> solid_closed(model, ids[k], (#[trigger] sheets[k])@)
}

/// Whether every curve that is used is used twice, and has been emitted.
spec fn all_paired(s: StepState) -> bool {
    &&& all_shared(s.uses)
    &&& forall|i: int| 0 <= i < s.uses.len() ==> (#[trigger] s.uses[i]).curve <= s.counter
}

/// Uses are along one curve exactly if the parts of boundaries are.
proof fn lemma_same_curve(
    s: StepState,
    c0: nat,
    u: StepUse,
    v: StepUse,
    a: Trace,
    b: Trace,
)
    requires
        orderly(s, c0),
        use_of(s, u, a),
        use_of(s, v, b),
    ensures
        u.curve == v.curve <==> same_trace(a, b),
        same_trace(a, b) && other_end(a, b) && u.way is From ==> u.way != v.way,
        c0 < u.curve <= s.counter,
{
    let k = choose|key: StepCurveKey| #[trigger]
        s.edges.dom().contains(key) && u.curve == s.edges[key].0 && found_by(s, a, key, u.way);
    let l = choose|key: StepCurveKey| #[trigger]
        s.edges.dom().contains(key) && v.curve == s.edges[key].0 && found_by(s, b, key, v.way);
    assert(u.curve == v.curve <==> k == l);
}

proof fn lemma_still_shared(s: StepState, t: StepState, c0: nat, traces: Seq<Trace>)
    requires
        all_paired(s),
        c0 == s.counter,
        orderly(s, c0),
        ran(c0, s, t, traces),
        t.counter <= usize::MAX,
        paired(traces),
    ensures
        all_paired(t),
{
    reveal(ran);
    let n0 = s.uses.len() as int;
    assert forall|i: int| n0 <= i < t.uses.len() implies c0 < (#[trigger] t.uses[i]).curve
        <= t.counter by {
        assert(use_of(t, t.uses[n0 + (i - n0)], traces[i - n0]));
        lemma_same_curve(t, c0, t.uses[i], t.uses[i], traces[i - n0], traces[i - n0]);
    }
    assert forall|m: int| 0 <= m < t.uses.len() implies shared_by_two(
        t.uses,
        (#[trigger] t.uses[m]).curve,
    ) by {
        let curve = t.uses[m].curve;
        if m < n0 {
            assert(t.uses[m] == s.uses[m]);
            assert(shared_by_two(s.uses, s.uses[m].curve));
            let (i, j) = choose|i: int, j: int|
                #![trigger s.uses[i], s.uses[j]]
                0 <= i < j < s.uses.len() && s.uses[i].curve == curve && s.uses[j].curve == curve
                    && (s.uses[i].way is From ==> s.uses[i].way != s.uses[j].way) && forall|x: int|
                    0 <= x < s.uses.len() && x != i && x != j ==> (#[trigger] s.uses[x]).curve
                        != curve;
            assert(t.uses[i] == s.uses[i] && t.uses[j] == s.uses[j]);
            assert forall|x: int| 0 <= x < t.uses.len() && x != i && x != j implies (
            #[trigger] t.uses[x]).curve != curve by {
                if x < n0 {
                    assert(t.uses[x] == s.uses[x]);
                }
            }
        } else {
            let p = m - n0;
            assert(has_mate(traces, p));
            let q = choose|q: int| mates(traces, p, q);
            let (i, j) = if p < q {
                (n0 + p, n0 + q)
            } else {
                (n0 + q, n0 + p)
            };
            assert(use_of(t, t.uses[n0 + p], traces[p]));
            assert(use_of(t, t.uses[n0 + q], traces[q]));
            lemma_same_curve(t, c0, t.uses[n0 + p], t.uses[n0 + q], traces[p], traces[q]);
            lemma_same_curve(t, c0, t.uses[n0 + q], t.uses[n0 + p], traces[q], traces[p]);
            assert forall|x: int| 0 <= x < t.uses.len() && x != i && x != j implies (
            #[trigger] t.uses[x]).curve != curve by {
                if x < n0 {
                    assert(t.uses[x] == s.uses[x]);
                } else {
                    let y = x - n0;
                    assert(use_of(t, t.uses[n0 + y], traces[y]));
                    assert(!same_trace(traces[p], traces[y]));
                    lemma_same_curve(t, c0, t.uses[n0 + p], t.uses[x], traces[p], traces[y]);
                }
            }
            assert(t.uses[i].curve == curve && t.uses[j].curve == curve);
        }
    }
    assert forall|i: int| 0 <= i < t.uses.len() implies (#[trigger] t.uses[i]).curve
        <= t.counter by {
        if i < n0 {
            assert(t.uses[i] == s.uses[i]);
        }
    }
}

proof fn lemma_shell_ran(
    c0: nat,
    done: Emitted,
    faces: Map<FaceId, Face>,
    ids: Seq<FaceId>,
    sheets: Seq<FaceSheet>,
    offset: int,
    j: int,
)
    requires
        0 <= j <= ids.len(),
        0 <= offset,
        offset + live_faces(faces, ids).len() <= sheets.len(),
        forall|k: int| 0 <= k < sheets.len() ==> face_known(#[trigger] sheets[k]),
    ensures
        ran(
            c0,
            done.state,
            shell_emitted(done, faces, ids, sheets, offset, j).state,
            shell_traces(faces, ids, sheets, offset, j),
        ),
    decreases j,
{
    if j <= 0 {
        lemma_ran_quiet(c0, done.state, done.state);
    } else {
        let so_far = shell_emitted(done, faces, ids, sheets, offset, j - 1);
        lemma_shell_ran(c0, done, faces, ids, sheets, offset, j - 1);
        if faces.dom().contains(ids[j - 1]) {
            let k = offset + live_faces(faces, ids.take(j - 1)).len();
            let face = faces[ids[j - 1]];
            lemma_live_place(faces, ids, j - 1);
            assert(face_known(sheets[k]));
            lemma_ran_face(c0, so_far.state, face, sheets[k]);
            lemma_ran_chain(
                c0,
                done.state,
                so_far.state,
                so_far.state.advanced_face(face, sheets[k]),
                shell_traces(faces, ids, sheets, offset, j - 1),
                face_traces(face, sheets[k]),
            );
        }
    }
}

/// The faces of a shell are not more than those of the solid after the shells
/// before it.
proof fn lemma_shell_room(model: Model, shells: Seq<ShellId>, i: int)
    requires
        0 <= i < shells.len(),
        model.shells.dom().contains(shells[i]),
    ensures
        shell_faces(model, shells.take(i)).len() + live_faces(
            model.faces,
            model.shells[shells[i]].faces@,
        ).len() <= shell_faces(model, shells).len(),
    decreases shells.len(),
{
    let rest = shells.drop_last();
    if i == shells.len() - 1 {
        assert(shells.take(i) =~= rest);
    } else {
        lemma_shell_room(model, rest, i);
        assert(rest.take(i) =~= shells.take(i));
        assert(rest[i] == shells[i]);
    }
}

proof fn lemma_shells_paired(
    state: StepState,
    model: Model,
    shells: Seq<ShellId>,
    sheets: Seq<FaceSheet>,
    i: int,
)
    requires
        0 <= i <= shells.len(),
        sheets.len() == shell_faces(model, shells).len(),
        forall|k: int| 0 <= k < sheets.len() ==> face_known(#[trigger] sheets[k]),
        forall|k: int|
            0 <= k < shells.len() ==> #[trigger] shell_closed(model, shells, sheets, k),
        all_paired(state),
    ensures
        state.counter <= shells_emitted(state, model, shells, sheets, i).state.counter,
        shells_emitted(state, model, shells, sheets, i).state.counter <= usize::MAX ==> all_paired(
            shells_emitted(state, model, shells, sheets, i).state,
        ),
    decreases i,
{
    if i > 0 {
        let so_far = shells_emitted(state, model, shells, sheets, i - 1);
        let fresh = Emitted { state: so_far.state.cleared(), ids: so_far.ids };
        let id = shells[i - 1];
        lemma_shells_paired(state, model, shells, sheets, i - 1);
        if model.shells.dom().contains(id) {
            let ids = model.shells[id].faces@;
            let offset = shell_faces(model, shells.take(i - 1)).len() as int;
            let n = ids.len() as int;
            let c0 = fresh.state.counter;
            let end = shell_emitted(fresh, model.faces, ids, sheets, offset, n);
            lemma_shell_room(model, shells, i - 1);
            lemma_shell_ran(c0, fresh, model.faces, ids, sheets, offset, n);
            assert(keeps(fresh.state, end.state)) by {
                reveal(ran);
            }
            assert(shell_closed(model, shells, sheets, i - 1));
            if end.state.counter <= usize::MAX {
                assert(all_paired(fresh.state));
                lemma_still_shared(
                    fresh.state,
                    end.state,
                    c0,
                    shell_traces(model.faces, ids, sheets, offset, n),
                );
            }
        }
    }
}

proof fn lemma_solid_paired(
    state: StepState,
    model: Model,
    solid: SolidId,
    sheets: Seq<FaceSheet>,
)
    requires
        model.solids.dom().contains(solid),
        solid_closed(model, solid, sheets),
        all_paired(state),
    ensures
        state.counter <= solid_emitted(state, model, solid, sheets).state.counter,
        solid_emitted(state, model, solid, sheets).state.counter <= usize::MAX ==> all_paired(
            solid_emitted(state, model, solid, sheets).state,
        ),
{
    let shells = model.solids[solid].shells@;
    lemma_shells_paired(state, model, shells, sheets, shells.len() as int);
}

proof fn lemma_solids_paired(
    state: StepState,
    model: Model,
    ids: Seq<SolidId>,
    sheets: Seq<Vec<FaceSheet>>,
    k: int,
)
    requires
        0 <= k <= ids.len(),
        solids_closed(model, ids, sheets),
        all_paired(state),
    ensures
        state.counter <= solids_emitted(state, model, ids, sheets, k).state.counter,
        solids_emitted(state, model, ids, sheets, k).state.counter <= usize::MAX ==> all_paired(
            solids_emitted(state, model, ids, sheets, k).state,
        ),
    decreases k,
{
    if k > 0 {
        let so_far = solids_emitted(state, model, ids, sheets, k - 1);
        lemma_solids_paired(state, model, ids, sheets, k - 1);
        let id = ids[k - 1];
        if model.solids.dom().contains(id) {
            let faces = solid_emitted(so_far.state, model, id, sheets[k - 1]@);
            assert(solid_closed(model, ids[k - 1], sheets[k - 1]@));
            reveal(StepState::manifold);
            lemma_counts_up(so_far.state, model, id, sheets[k - 1]@);
            if solids_emitted(state, model, ids, sheets, k).state.counter <= usize::MAX {
                lemma_solid_paired(so_far.state, model, id, sheets[k - 1]@);
            }
        }
    }
}

proof fn lemma_products_quiet(state: StepState, context: nat, k: nat)
    ensures
        products_emitted(state, context, k).uses == state.uses,
        state.counter <= products_emitted(state, context, k).counter,
    decreases k,
{
    if k > 0 {
        lemma_products_quiet(state, context, (k - 1) as nat);
        reveal(StepState::product_shape);
    }
}

proof fn lemma_shapes_quiet(
    state: StepState,
    items: Seq<usize>,
    base: nat,
    geometry: nat,
    k: nat,
)
    ensures
        shapes_emitted(state, items, base, geometry, k).uses == state.uses,
        state.counter <= shapes_emitted(state, items, base, geometry, k).counter,
    decreases k,
{
    if k > 0 {
        lemma_shapes_quiet(state, items, base, geometry, (k - 1) as nat);
    }
}

proof fn lemma_parts_paired(model: Model, ids: Seq<SolidId>, sheets: Seq<Vec<FaceSheet>>)
    requires
        solids_closed(model, ids, sheets),
        part_state(model, ids, sheets).counter <= usize::MAX,
    ensures
        all_shared(part_state(model, ids, sheets).uses),
{
    let count = ids.len() as int;
    let n = solids_named(model, ids, count);
    let s1 = StepState::start().application(Protocol::Ap203);
    let s2 = products_emitted(s1, s1.counter, n);
    let solids = solids_emitted(s2, model, ids, sheets, count);
    let s3 = solids.state.geometric_context();
    let s4 = s3.blank().units();
    assert(s1.uses.len() == 0) by {
        reveal(StepState::application);
    }
    assert(s4.uses == solids.state.uses && solids.state.counter <= s4.counter) by {
        reveal(StepState::units);
    }
    lemma_products_quiet(s1, s1.counter, n);
    lemma_shapes_quiet(s4, solids.ids, s1.counter, s3.counter, n);
    assert(all_paired(s2));
    lemma_solids_paired(s2, model, ids, sheets, count);
}

proof fn lemma_components_paired(
    state: StepState,
    model: Model,
    ids: Seq<SolidId>,
    sheets: Seq<Vec<FaceSheet>>,
    assembly: AssemblyIds,
    k: int,
)
    requires
        0 <= k <= ids.len(),
        solids_closed(model, ids, sheets),
        all_paired(state),
    ensures
        state.counter <= components_emitted(state, model, ids, sheets, assembly, k).counter,
        components_emitted(state, model, ids, sheets, assembly, k).counter <= usize::MAX
            ==> all_paired(components_emitted(state, model, ids, sheets, assembly, k)),
    decreases k,
{
    if k > 0 {
        let so_far = components_emitted(state, model, ids, sheets, assembly, k - 1);
        lemma_components_paired(state, model, ids, sheets, assembly, k - 1);
        let id = ids[k - 1];
        if model.solids.dom().contains(id) {
            let faces = solid_emitted(so_far, model, id, sheets[k - 1]@);
            assert(solid_closed(model, ids[k - 1], sheets[k - 1]@));
            lemma_counts_up(so_far, model, id, sheets[k - 1]@);
            let part = faces.state.component(
                faces.ids,
                model.solids[id],
                (k - 1) as nat,
                assembly,
            );
            assert(part.uses == faces.state.uses && faces.state.counter <= part.counter) by {
                reveal(StepState::component);
                reveal(StepState::part);
                reveal(StepState::manifold);
                reveal(StepState::product_shape);
            }
            if components_emitted(state, model, ids, sheets, assembly, k).counter <= usize::MAX {
                lemma_solid_paired(so_far, model, id, sheets[k - 1]@);
            }
        }
    }
}

/// In the file of solids whose shells are closed every edge curve has one use
/// along it and one against it: where in the boundaries of the faces of each
/// shell every curve occurs exactly twice, from either end if it has ends, each
/// `EDGE_CURVE` of the file is named by one `ORIENTED_EDGE` with `.T.` and by one
/// with `.F.`. No solid's name may hold a `#`.
pub proof fn law_closed_solids_are_run_both_ways(
    model: Model,
    ids: Seq<SolidId>,
    sheets: Seq<Vec<FaceSheet>>,
    k: int,
)
    requires
        all_named_plainly(model),
        solids_closed(model, ids, sheets),
        part_state(model, ids, sheets).counter <= usize::MAX,
        0 <= k < part_state(model, ids, sheets).lines.len(),
        is_edge_curve(part_state(model, ids, sheets).lines[k]),
    ensures
        times_said(part_state(model, ids, sheets).lines, use_body((k + 1) as nat, true)) == 1,
        times_said(part_state(model, ids, sheets).lines, use_body((k + 1) as nat, false)) == 1,
{
    lemma_parts_paired(model, ids, sheets);
    law_edge_curves_are_run_both_ways(model, ids, sheets, k);
}

/// In the file of an assembly of solids whose shells are closed every edge curve
/// has one use along it and one against it, as in a file of parts.
pub proof fn law_closed_components_are_run_both_ways(
    model: Model,
    ids: Seq<SolidId>,
    sheets: Seq<Vec<FaceSheet>>,
    k: int,
)
    requires
        all_named_plainly(model),
        solids_closed(model, ids, sheets),
        assembly_state(model, ids, sheets).counter <= usize::MAX,
        0 <= k < assembly_state(model, ids, sheets).lines.len(),
        is_edge_curve(assembly_state(model, ids, sheets).lines[k]),
    ensures
        times_said(assembly_state(model, ids, sheets).lines, use_body((k + 1) as nat, true)) == 1,
        times_said(assembly_state(model, ids, sheets).lines, use_body((k + 1) as nat, false)) == 1,
{
    assert(all_paired(assembly_head())) by {
        reveal(StepState::application);
        reveal(StepState::units);
        reveal(StepState::product_shape);
    }
    lemma_components_paired(
        assembly_head(),
        model,
        ids,
        sheets,
        assembly_ids(),
        ids.len() as int,
    );
    law_assembly_edge_curves_are_run_both_ways(model, ids, sheets, k);
}

/// Emitting a solid takes no id back.
proof fn lemma_counts_up(
    state: StepState,
    model: Model,
    solid: SolidId,
    sheets: Seq<FaceSheet>,
)
    requires
        solid_closed(model, solid, sheets),
    ensures
        state.counter <= solid_emitted(state, model, solid, sheets).state.counter,
{
    if model.solids.dom().contains(solid) {
        let shells = model.solids[solid].shells@;
        lemma_shells_count_up(state, model, shells, sheets, shells.len() as int);
    }
}

proof fn lemma_shells_count_up(
    state: StepState,
    model: Model,
    shells: Seq<ShellId>,
    sheets: Seq<FaceSheet>,
    i: int,
)
    requires
        0 <= i <= shells.len(),
        sheets.len() == shell_faces(model, shells).len(),
        forall|k: int| 0 <= k < sheets.len() ==> face_known(#[trigger] sheets[k]),
    ensures
        state.counter <= shells_emitted(state, model, shells, sheets, i).state.counter,
    decreases i,
{
    if i > 0 {
        let so_far = shells_emitted(state, model, shells, sheets, i - 1);
        let fresh = Emitted { state: so_far.state.cleared(), ids: so_far.ids };
        let id = shells[i - 1];
        lemma_shells_count_up(state, model, shells, sheets, i - 1);
        if model.shells.dom().contains(id) {
            let ids = model.shells[id].faces@;
            let offset = shell_faces(model, shells.take(i - 1)).len() as int;
            lemma_shell_room(model, shells, i - 1);
            lemma_shell_ran(0, fresh, model.faces, ids, sheets, offset, ids.len() as int);
            reveal(ran);
        }
    }
}

} // verus!
