//! How the entities grow while faces are written: what is there stays, and
//! stays in order.

use vstd::prelude::*;

use crate::bounds::{
    ArcFaceSheet, ArcSheet, BoundarySheet, CapSheet, CircleSheet, Emitted, EllipseSheet,
    FaceSheet, SideSheet, StepPoint, arc_face_uses, arc_key, band_ring, cap_uses, circle_key,
    edge_curve_body, eighth_after, ellipse_key, face_bounds, finished, flag, line_key, no_bounds,
    ring_bound, ring_sides, ring_vertices, shared_arc, shared_line, side_counts, use_body,
};
use crate::brep::ring_next;
use crate::entities::{Face, FaceBoundary, FaceExtent, FaceGeom};
use crate::geometry::{Ellipse3, Frame3, Point3, UnitVec3};
use crate::marks::{
    among, aside, counting, hanging, hook, law_references, lead, lemma_aside, lemma_aside_refs,
    lemma_refs, opens, plain, settled,
};
use crate::neat::{
    begun, lemma_neat_again, lemma_neat_new, lemma_neat_put, lemma_neat_sound, lemma_neat_vertex,
    lemma_no_product, lemma_not_unused, links, neat, products,
};
use crate::scalar::Real;
use crate::script::Script;
use crate::step::{StepCurveKey, StepState, StepUse, Way, triple_body};
use crate::step_laws::{after, sound};

verus! {

/// One state comes after another, what was in order is, and there are no new
/// products.
pub open spec fn grown(s: StepState, t: StepState) -> bool {
    &&& after(s, t)
    &&& forall|limit: nat| #[trigger]
        neat(s, limit) && t.counter <= limit <= usize::MAX ==> neat(t, limit)
    &&& products(t.lines) == products(s.lines)
    &&& links(t.lines) == links(s.lines)
}

/// Something is emitted, and nothing is remembered or forgotten.
pub open spec fn quiet(s: StepState, t: StepState) -> bool {
    grown(s, t) && t.counter > s.counter && t.vertices == s.vertices && t.edges == s.edges
}

/// Entities that were emitted since, and ids of entities.
pub open spec fn listed(s: StepState, done: Emitted) -> bool {
    &&& grown(s, done.state)
    &&& sound(s) && done.state.counter <= usize::MAX ==> among(done.ids, done.state.counter)
}

proof fn lemma_after_self(s: StepState)
    ensures
        after(s, s),
{
    assert(s.out.take(s.out.len() as int) =~= s.out);
}

proof fn lemma_after_chain(s: StepState, t: StepState, u: StepState)
    requires
        after(s, t),
        after(t, u),
    ensures
        after(s, u),
{
    assert(u.out.take(s.out.len() as int) =~= t.out.take(s.out.len() as int)) by {
        assert(u.out.take(t.out.len() as int) == t.out);
        assert forall|i: int| 0 <= i < s.out.len() implies u.out[i] == t.out[i] by {
            assert(u.out.take(t.out.len() as int)[i] == u.out[i]);
        }
    }
}

proof fn lemma_after_put(s: StepState, body: Script)
    ensures
        after(s, s.put(body)),
{
    assert(s.put(body).out.take(s.out.len() as int) =~= s.out);
}

/// Nothing happens.
pub proof fn lemma_grown_self(s: StepState)
    ensures
        grown(s, s),
{
    lemma_after_self(s);
}

/// One thing happens after another.
pub proof fn lemma_grown_chain(s: StepState, t: StepState, u: StepState)
    requires
        grown(s, t),
        grown(t, u),
    ensures
        grown(s, u),
{
    lemma_after_chain(s, t, u);
    assert forall|limit: nat| #[trigger]
        neat(s, limit) && u.counter <= limit <= usize::MAX implies neat(u, limit) by {
        assert(neat(t, limit));
    }
}

/// One thing happens after another, without anything to remember.
pub proof fn lemma_quiet_chain(s: StepState, t: StepState, u: StepState)
    requires
        quiet(s, t),
        quiet(t, u),
    ensures
        quiet(s, u),
{
    lemma_grown_chain(s, t, u);
}

/// One more entity.
pub proof fn lemma_put(s: StepState, body: Script)
    requires
        aside(body),
        forall|limit: nat| #[trigger]
            neat(s, limit) && s.counter + 1 <= limit <= usize::MAX ==> settled(body, limit),
    ensures
        quiet(s, s.put(body)),
        s.put(body).counter == s.counter + 1,
{
    lemma_after_put(s, body);
    lemma_no_product(s.lines, body);
    reveal(aside);
    assert forall|limit: nat| #[trigger]
        neat(s, limit) && s.put(body).counter <= limit <= usize::MAX implies neat(
        s.put(body),
        limit,
    ) by {
        lemma_neat_put(s, limit, body);
    }
}

/// Short pieces of text.
pub proof fn lemma_pieces()
    ensures
        plain(""@),
        plain(","@),
        opens(","@),
        plain(")"@),
        opens(")"@),
        plain("))"@),
        opens("))"@),
        plain("('"@),
        plain("',("@),
        plain(",.T.)"@),
        opens(",.T.)"@),
        plain(flag(true)),
        plain(flag(false)),
        hook(",#"@),
        opens(",#"@),
        hook("',#"@),
        hook("('',#"@),
{
    reveal(plain);
    reveal(opens);
    reveal(hook);
    reveal_strlit("");
    reveal_strlit(",");
    reveal_strlit(")");
    reveal_strlit("))");
    reveal_strlit("('");
    reveal_strlit("',(");
    reveal_strlit(",.T.)");
    reveal_strlit(".T.");
    reveal_strlit(".F.");
    reveal_strlit(",#");
    reveal_strlit("',#");
    reveal_strlit("('',#");
}

/// A text that an entity may begin with.
pub open spec fn kind_text(kind: Seq<char>) -> bool {
    plain(kind) && lead(kind)
}

proof fn lemma_kinds()
    ensures
        kind_text("CARTESIAN_POINT"@),
        kind_text("DIRECTION"@),
        kind_text("PLANE"@),
        kind_text("CYLINDRICAL_SURFACE"@),
        kind_text("SPHERICAL_SURFACE"@),
        kind_text("TOROIDAL_SURFACE"@),
        kind_text("VERTEX_POINT"@),
        kind_text("CIRCLE"@),
        kind_text("ELLIPSE"@),
        kind_text("AXIS2_PLACEMENT_3D('"@),
        kind_text("FACE_OUTER_BOUND"@),
        kind_text("FACE_BOUND"@),
        kind_text("EDGE_LOOP('',("@),
{
    reveal(plain);
    reveal(lead);
    reveal_strlit("CARTESIAN_POINT");
    reveal_strlit("DIRECTION");
    reveal_strlit("PLANE");
    reveal_strlit("CYLINDRICAL_SURFACE");
    reveal_strlit("SPHERICAL_SURFACE");
    reveal_strlit("TOROIDAL_SURFACE");
    reveal_strlit("VERTEX_POINT");
    reveal_strlit("CIRCLE");
    reveal_strlit("ELLIPSE");
    reveal_strlit("AXIS2_PLACEMENT_3D('");
    reveal_strlit("FACE_OUTER_BOUND");
    reveal_strlit("FACE_BOUND");
    reveal_strlit("EDGE_LOOP('',(");
}

proof fn lemma_labels()
    ensures
        plain("plane"@),
        plain("cyl_axis"@),
        plain("sph_axis"@),
        plain("torus_axis"@),
        plain("ellipse_ax"@),
        plain("_Z"@),
        plain("_X"@),
        plain("v"@),
        plain("c"@),
        plain("cn"@),
        plain("cx"@),
        plain("lp"@),
        plain("ld"@),
        plain("rbl_p"@),
        plain("rbl_d"@),
        plain("rba_c"@),
        plain("rba_n"@),
        plain("rba_x"@),
{
    reveal(plain);
    reveal_strlit("plane");
    reveal_strlit("cyl_axis");
    reveal_strlit("sph_axis");
    reveal_strlit("torus_axis");
    reveal_strlit("ellipse_ax");
    reveal_strlit("_Z");
    reveal_strlit("_X");
    reveal_strlit("v");
    reveal_strlit("c");
    reveal_strlit("cn");
    reveal_strlit("cx");
    reveal_strlit("lp");
    reveal_strlit("ld");
    reveal_strlit("rbl_p");
    reveal_strlit("rbl_d");
    reveal_strlit("rba_c");
    reveal_strlit("rba_n");
    reveal_strlit("rba_x");
}

proof fn lemma_triple(
    limit: nat,
    kind: Seq<char>,
    label: Seq<char>,
    suffix: Seq<char>,
    x: Real,
    y: Real,
    z: Real,
)
    requires
        kind_text(kind),
        plain(label),
        plain(suffix),
    ensures
        settled(triple_body(kind, label, suffix, x, y, z), limit),
        aside(triple_body(kind, label, suffix, x, y, z)),
{
    lemma_pieces();
    law_references(limit);
    lemma_aside();
}

proof fn lemma_point(s: StepState, p: Point3, label: Seq<char>)
    requires
        plain(label),
    ensures
        quiet(s, s.point(p, label)),
        s.point(p, label).counter == s.counter + 1,
{
    lemma_kinds();
    lemma_pieces();
    assert forall|limit: nat| true implies #[trigger] settled(
        triple_body("CARTESIAN_POINT"@, label, ""@, p.x, p.y, p.z),
        limit,
    ) by {
        lemma_triple(limit, "CARTESIAN_POINT"@, label, ""@, p.x, p.y, p.z);
    }
    lemma_triple(0, "CARTESIAN_POINT"@, label, ""@, p.x, p.y, p.z);
    lemma_put(s, triple_body("CARTESIAN_POINT"@, label, ""@, p.x, p.y, p.z));
}

proof fn lemma_direction2(s: StepState, u: UnitVec3, label: Seq<char>, suffix: Seq<char>)
    requires
        plain(label),
        plain(suffix),
    ensures
        quiet(s, s.direction2(u, label, suffix)),
        s.direction2(u, label, suffix).counter == s.counter + 1,
{
    lemma_kinds();
    assert forall|limit: nat| true implies #[trigger] settled(
        triple_body("DIRECTION"@, label, suffix, u.x, u.y, u.z),
        limit,
    ) by {
        lemma_triple(limit, "DIRECTION"@, label, suffix, u.x, u.y, u.z);
    }
    lemma_triple(0, "DIRECTION"@, label, suffix, u.x, u.y, u.z);
    lemma_put(s, triple_body("DIRECTION"@, label, suffix, u.x, u.y, u.z));
}

/// A placement from entities that are there.
pub proof fn lemma_placement(s: StepState, label: Seq<char>, o: nat, z: nat, x: nat)
    requires
        plain(label),
        1 <= o <= s.counter,
        1 <= z <= s.counter,
        1 <= x <= s.counter,
    ensures
        quiet(s, s.placement(label, o, z, x)),
        s.placement(label, o, z, x).counter == s.counter + 1,
{
    lemma_kinds();
    lemma_pieces();
    lemma_aside();
    let head = Script::empty().text("AXIS2_PLACEMENT_3D('"@);
    let body = head.text(label).text("',#"@).whole(o).text(",#"@).whole(z).text(",#"@).whole(
        x,
    ).text(")"@);
    assert(aside(head));
    assert forall|limit: nat| #[trigger]
        neat(s, limit) && s.counter + 1 <= limit <= usize::MAX implies settled(body, limit) by {
        law_references(limit);
    }
    lemma_put(s, body);
}

proof fn lemma_axis2(s: StepState, frame: Frame3, label: Seq<char>)
    requires
        plain(label),
    ensures
        quiet(s, s.axis2(frame, label)),
{
    let s1 = s.point(frame.origin, label);
    let s2 = s1.direction2(frame.z, label, "_Z"@);
    let s3 = s2.direction2(frame.x, label, "_X"@);
    lemma_labels();
    lemma_point(s, frame.origin, label);
    lemma_direction2(s1, frame.z, label, "_Z"@);
    lemma_direction2(s2, frame.x, label, "_X"@);
    lemma_placement(s3, label, s1.counter, s2.counter, s3.counter);
    lemma_quiet_chain(s, s1, s2);
    lemma_quiet_chain(s, s2, s3);
    lemma_quiet_chain(s, s3, s.axis2(frame, label));
}

proof fn lemma_over(s: StepState, kind: Seq<char>, a: Real, b: Real)
    requires
        kind_text(kind),
        s.counter >= 1,
    ensures
        quiet(s, s.over(kind)),
        quiet(s, s.over1(kind, a)),
        quiet(s, s.over2(kind, a, b)),
{
    lemma_pieces();
    lemma_aside();
    let head = Script::empty().text(kind);
    let body = head.text("('',#"@).whole(s.counter);
    let b0 = body.text(")"@);
    let b1 = body.text(","@).number(a).text(")"@);
    let b2 = body.text(","@).number(a).text(","@).number(b).text(")"@);
    assert(aside(head));
    assert forall|limit: nat| #[trigger]
        neat(s, limit) && s.counter + 1 <= limit <= usize::MAX implies settled(b0, limit)
        && settled(b1, limit) && settled(b2, limit) by {
        law_references(limit);
    }
    lemma_put(s, b0);
    lemma_put(s, b1);
    lemma_put(s, b2);
}

/// A surface.
pub proof fn lemma_surface(s: StepState, geom: FaceGeom)
    ensures
        quiet(s, s.surface(geom)),
{
    let zero = Real { bits: 0 };
    lemma_kinds();
    lemma_labels();
    match geom {
        FaceGeom::Plane(p) => {
            let t = s.axis2(p.frame, "plane"@);
            lemma_axis2(s, p.frame, "plane"@);
            lemma_over(t, "PLANE"@, zero, zero);
            lemma_quiet_chain(s, t, s.surface(geom));
        },
        FaceGeom::Cylinder(c) => {
            let t = s.axis2(c.frame, "cyl_axis"@);
            lemma_axis2(s, c.frame, "cyl_axis"@);
            lemma_over(t, "CYLINDRICAL_SURFACE"@, c.radius, zero);
            lemma_quiet_chain(s, t, s.surface(geom));
        },
        FaceGeom::Sphere(p) => {
            let t = s.axis2(p.frame, "sph_axis"@);
            lemma_axis2(s, p.frame, "sph_axis"@);
            lemma_over(t, "SPHERICAL_SURFACE"@, p.radius, zero);
            lemma_quiet_chain(s, t, s.surface(geom));
        },
        FaceGeom::Torus(r) => {
            let t = s.axis2(r.frame, "torus_axis"@);
            lemma_axis2(s, r.frame, "torus_axis"@);
            lemma_over(t, "TOROIDAL_SURFACE"@, r.major_radius, r.minor_radius);
            lemma_quiet_chain(s, t, s.surface(geom));
        },
    }
}

/// A vertex.
pub proof fn lemma_vertex(s: StepState, p: StepPoint)
    ensures
        grown(s, s.vertex(p)),
        s.vertex(p).edges == s.edges,
        s.vertex(p).vertices.dom().contains(p.key),
        sound(s) && s.vertex(p).counter <= usize::MAX ==> 1 <= s.vertex_at(p)
            <= s.vertex(p).counter,
{
    let w = s.vertex(p);
    if s.vertices.dom().contains(p.key) {
        lemma_grown_self(s);
    } else {
        let zero = Real { bits: 0 };
        let t = s.point(p.at, "v"@);
        let u = t.over("VERTEX_POINT"@);
        lemma_labels();
        lemma_kinds();
        lemma_point(s, p.at, "v"@);
        lemma_over(t, "VERTEX_POINT"@, zero, zero);
        lemma_quiet_chain(s, t, u);
        assert(w.out == u.out);
        assert forall|limit: nat| #[trigger]
            neat(s, limit) && w.counter <= limit <= usize::MAX implies neat(w, limit) by {
            assert(neat(u, limit));
            lemma_neat_vertex(u, limit, p.key, u.last());
        }
    }
}

/// What an edge curve and a use of one say.
proof fn lemma_curve_bodies(
    limit: nat,
    from: nat,
    to: nat,
    curve: nat,
    same: bool,
)
    ensures
        1 <= from <= limit && 1 <= to <= limit && 1 <= curve <= limit ==> settled(
            edge_curve_body(from, to, curve, same),
            limit,
        ),
        1 <= curve <= limit ==> settled(use_body(curve, same), limit),
{
    lemma_pieces();
    law_references(limit);
    let a = Script::empty().text("EDGE_CURVE('',#"@);
    let b = Script::empty().text("ORIENTED_EDGE('',*,*,#"@);
    assert(hook("EDGE_CURVE('',#"@) && hook("ORIENTED_EDGE('',*,*,#"@)) by {
        reveal(hook);
        reveal_strlit("EDGE_CURVE('',#");
        reveal_strlit("ORIENTED_EDGE('',*,*,#");
    }
    if 1 <= curve <= limit {
        assert(hanging(b, limit));
        assert(counting(b.whole(curve), limit));
        if 1 <= from <= limit && 1 <= to <= limit {
            assert(hanging(a, limit));
            let a1 = a.whole(from).text(",#"@);
            assert(hanging(a1, limit));
            let a2 = a1.whole(to).text(",#"@);
            assert(hanging(a2, limit));
            assert(settled(a2.whole(curve).text(","@), limit));
        }
    }
}

/// A new edge curve is remembered.
pub proof fn lemma_remembered(
    s: StepState,
    from: usize,
    to: usize,
    curve: nat,
    along: bool,
    key: StepCurveKey,
    start: usize,
)
    requires
        !s.edges.dom().contains(key),
        key matches StepCurveKey::Line { v1, v2 } ==> start == v1 || start == v2,
    ensures
        after(s, s.edge_curve(from, to, curve, along).remember(key, start)),
        s.edge_curve(from, to, curve, along).remember(key, start).edges.dom().contains(key),
{
    let t = s.edge_curve(from, to, curve, along);
    lemma_after_put(s, edge_curve_body(from as nat, to as nat, curve, along));
    let u = t.remember(key, start);
    assert(u.out == t.out);
    if sound(s) && u.counter <= usize::MAX {
        assert(sound(t));
        assert(sound(u));
    }
}

/// A new edge curve is remembered and used.
proof fn lemma_new_use(
    s0: StepState,
    s: StepState,
    from: usize,
    to: usize,
    curve: nat,
    along: bool,
    key: StepCurveKey,
    start: usize,
    way: Way,
    same: bool,
)
    requires
        grown(s0, s),
        !s.edges.dom().contains(key),
        key matches StepCurveKey::Line { v1, v2 } ==> start == v1 || start == v2,
        sound(s0) && s.counter <= usize::MAX ==> 1 <= from <= s.counter && 1 <= to <= s.counter,
        1 <= curve <= s.counter,
        begun(key, start, StepUse { curve: 0, way, same }),
    ensures
        ({
            let m = s.edge_curve(from, to, curve, along).remember(key, start);
            let u = m.oriented(m.last(), way, same);
            grown(s0, u) && u.counter > s.counter
        }),
{
    let m = s.edge_curve(from, to, curve, along).remember(key, start);
    let u = m.oriented(m.last(), way, same);
    lemma_remembered(s, from, to, curve, along, key, start);
    lemma_after_put(m, use_body(m.last() as nat, same));
    assert(after(m, u)) by {
        assert(u.out == m.put(use_body(m.last() as nat, same)).out);
    }
    lemma_after_chain(s, m, u);
    lemma_after_chain(s0, s, u);
    lemma_not_unused(from as nat, to as nat, curve, along);
    lemma_not_unused(from as nat, to as nat, m.last() as nat, same);
    lemma_no_product(s.lines, edge_curve_body(from as nat, to as nat, curve, along));
    lemma_no_product(m.lines, use_body(m.last() as nat, same));
    assert forall|limit: nat| #[trigger]
        neat(s0, limit) && u.counter <= limit <= usize::MAX implies neat(u, limit) by {
        lemma_neat_sound(s0, limit);
        assert(neat(s, limit));
        lemma_curve_bodies(limit, from as nat, to as nat, curve, along);
        lemma_curve_bodies(limit, from as nat, to as nat, s.counter + 1, same);
        lemma_neat_new(s, limit, from, to, curve, along, key, start, way, same);
    }
}

/// A remembered edge curve is used.
proof fn lemma_again_use(s: StepState, key: StepCurveKey, way: Way, same: bool)
    requires
        s.edges.dom().contains(key),
        match key {
            StepCurveKey::Circle { .. } => way is Round && same == (s.edges[key].1 == 0),
            StepCurveKey::Ellipse { .. } => way is Round && same == (s.edges[key].1 == 0),
            _ => way is From && same == (way == Way::From(s.edges[key].1)),
        },
    ensures
        quiet(s, s.oriented(s.edges[key].0, way, same)),
{
    let curve = s.edges[key].0;
    let u = s.oriented(curve, way, same);
    lemma_after_put(s, use_body(curve as nat, same));
    lemma_not_unused(0, 0, curve as nat, same);
    lemma_no_product(s.lines, use_body(curve as nat, same));
    assert(after(s, u)) by {
        assert(u.out == s.put(use_body(curve as nat, same)).out);
    }
    assert forall|limit: nat| #[trigger]
        neat(s, limit) && u.counter <= limit <= usize::MAX implies neat(u, limit) by {
        lemma_neat_sound(s, limit);
        lemma_curve_bodies(limit, 1, 1, curve as nat, same);
        lemma_neat_again(s, limit, key, way, same);
    }
}

/// The straight line under a segment.
proof fn lemma_line_under(s: StepState, at: Point3, dir: UnitVec3, a: Seq<char>, b: Seq<char>)
    requires
        plain(a),
        plain(b),
    ensures
        ({
            let s1 = s.point(at, a);
            let s2 = s1.direction(dir, b);
            quiet(
                s,
                s2.put(
                    Script::empty().text("LINE('',#"@).whole(s1.counter).text(",#"@).whole(
                        s2.counter,
                    ).text(")"@),
                ),
            )
        }),
{
    let s1 = s.point(at, a);
    let s2 = s1.direction(dir, b);
    let head = Script::empty().text("LINE('',#"@);
    let body = head.whole(s1.counter).text(",#"@).whole(s2.counter).text(")"@);
    lemma_pieces();
    lemma_aside();
    assert(hook("LINE('',#"@) && lead("LINE('',#"@)) by {
        reveal(hook);
        reveal(lead);
        reveal_strlit("LINE('',#");
    }
    lemma_point(s, at, a);
    lemma_direction2(s1, dir, b, ""@);
    assert(aside(head));
    assert forall|limit: nat| #[trigger]
        neat(s2, limit) && s2.counter + 1 <= limit <= usize::MAX implies settled(body, limit) by {
        law_references(limit);
        assert(hanging(head, limit));
    }
    lemma_put(s2, body);
    lemma_quiet_chain(s, s1, s2);
    lemma_quiet_chain(s, s2, s2.put(body));
}

/// The edge curve of a segment.
pub proof fn lemma_segment(
    s: StepState,
    at: Point3,
    dir: UnitVec3,
    from: usize,
    to: usize,
    a: Seq<char>,
    b: Seq<char>,
)
    ensures
        after(s, s.segment(at, dir, from, to, a, b)),
        s.segment(at, dir, from, to, a, b).edges.dom().contains(line_key(from, to)),
{
    if s.edges.dom().contains(line_key(from, to)) {
        lemma_after_self(s);
    } else {
        let s1 = s.point(at, a);
        let s2 = s1.direction(dir, b);
        let body = Script::empty().text("LINE('',#"@).whole(s1.counter).text(",#"@).whole(
            s2.counter,
        ).text(")"@);
        let s3 = s2.put(body);
        lemma_after_put(s, triple_body("CARTESIAN_POINT"@, a, ""@, at.x, at.y, at.z));
        lemma_after_put(s1, triple_body("DIRECTION"@, b, ""@, dir.x, dir.y, dir.z));
        lemma_after_put(s2, body);
        lemma_after_chain(s, s1, s2);
        lemma_after_chain(s, s2, s3);
        lemma_remembered(s3, from, to, s3.counter, true, line_key(from, to), from);
        lemma_after_chain(s, s3, s.segment(at, dir, from, to, a, b));
    }
}

/// A use of a segment.
proof fn lemma_segment_use(
    s0: StepState,
    s: StepState,
    at: Point3,
    dir: UnitVec3,
    from: usize,
    to: usize,
    a: Seq<char>,
    b: Seq<char>,
)
    requires
        grown(s0, s),
        plain(a),
        plain(b),
        sound(s0) && s.counter <= usize::MAX ==> 1 <= from <= s.counter && 1 <= to <= s.counter,
    ensures
        ({
            let u = s.segment(at, dir, from, to, a, b).used_from(line_key(from, to), from);
            grown(s0, u) && u.counter > s.counter
        }),
{
    let key = line_key(from, to);
    let t = s.segment(at, dir, from, to, a, b);
    let u = t.used_from(key, from);
    if s.edges.dom().contains(key) {
        lemma_again_use(s, key, Way::From(from), s.edges[key].1 == from);
        lemma_grown_chain(s0, s, u);
    } else {
        let s1 = s.point(at, a);
        let s2 = s1.direction(dir, b);
        let s3 = s2.put(
            Script::empty().text("LINE('',#"@).whole(s1.counter).text(",#"@).whole(
                s2.counter,
            ).text(")"@),
        );
        lemma_line_under(s, at, dir, a, b);
        lemma_grown_chain(s0, s, s3);
        lemma_new_use(s0, s3, from, to, s3.counter, true, key, from, Way::From(from), true);
        let m = s3.edge_curve(from, to, s3.counter, true).remember(key, from);
        assert(t == m);
        assert(u == m.oriented(m.last(), Way::From(from), true));
    }
}

/// One more entity, which refers to some that have been emitted since.
proof fn lemma_put_since(s0: StepState, s: StepState, body: Script)
    requires
        grown(s0, s),
        aside(body),
        forall|limit: nat| #[trigger]
            neat(s0, limit) && s.counter + 1 <= limit <= usize::MAX ==> settled(body, limit),
    ensures
        grown(s0, s.put(body)),
{
    lemma_after_put(s, body);
    lemma_after_chain(s0, s, s.put(body));
    lemma_no_product(s.lines, body);
    reveal(aside);
    assert forall|limit: nat| #[trigger]
        neat(s0, limit) && s.put(body).counter <= limit <= usize::MAX implies neat(
        s.put(body),
        limit,
    ) by {
        assert(neat(s, limit));
        lemma_neat_put(s, limit, body);
    }
}

proof fn lemma_single_bound(s: StepState, outer: bool)
    requires
        s.counter >= 1,
    ensures
        quiet(s, s.single_bound(outer)),
{
    lemma_pieces();
    lemma_kinds();
    lemma_aside();
    assert(hook("EDGE_LOOP('',(#"@) && lead("EDGE_LOOP('',(#"@)) by {
        reveal(hook);
        reveal(lead);
        reveal_strlit("EDGE_LOOP('',(#");
    }
    let h1 = Script::empty().text("EDGE_LOOP('',(#"@);
    let b1 = h1.whole(s.counter).text("))"@);
    let t = s.put(b1);
    let kind = if outer {
        "FACE_OUTER_BOUND"@
    } else {
        "FACE_BOUND"@
    };
    let h2 = Script::empty().text(kind);
    let b2 = h2.text("('',#"@).whole(t.counter).text(",.T.)"@);
    assert(aside(h1) && aside(h2));
    assert forall|limit: nat| #[trigger]
        neat(s, limit) && s.counter + 1 <= limit <= usize::MAX implies settled(b1, limit) by {
        law_references(limit);
        assert(hanging(h1, limit));
    }
    lemma_put(s, b1);
    assert forall|limit: nat| #[trigger]
        neat(t, limit) && t.counter + 1 <= limit <= usize::MAX implies settled(b2, limit) by {
        law_references(limit);
    }
    lemma_put(t, b2);
    lemma_quiet_chain(s, t, t.put(b2));
}

proof fn lemma_finished(s0: StepState, done: Emitted)
    requires
        listed(s0, done),
    ensures
        listed(s0, finished(done)),
{
    if done.ids.len() > 0 {
        let s = done.state;
        lemma_pieces();
        lemma_kinds();
        lemma_aside();
        assert(hook("FACE_OUTER_BOUND('',#"@) && lead("FACE_OUTER_BOUND('',#"@)) by {
            reveal(hook);
            reveal(lead);
            reveal_strlit("FACE_OUTER_BOUND('',#");
        }
        let x = "EDGE_LOOP('',("@;
        let h1 = Script::empty().text(x);
        let b1 = h1.refs(done.ids).text("))"@);
        let t = s.put(b1);
        let h2 = Script::empty().text("FACE_OUTER_BOUND('',#"@);
        let b2 = h2.whole(t.counter).text(",.T.)"@);
        assert(aside(h1) && aside(h2));
        lemma_aside_refs(h1, done.ids);
        assert forall|limit: nat| #[trigger]
            neat(s0, limit) && s.counter + 1 <= limit <= usize::MAX implies settled(b1, limit) by {
            lemma_neat_sound(s0, limit);
            assert(among(done.ids, limit));
            assert(x.len() > 0 && x.last() != '\n') by {
                reveal_strlit("EDGE_LOOP('',(");
            }
            lemma_refs(x, done.ids, limit);
            law_references(limit);
        }
        lemma_put_since(s0, s, b1);
        assert forall|limit: nat| #[trigger]
            neat(t, limit) && t.counter + 1 <= limit <= usize::MAX implies settled(b2, limit) by {
            law_references(limit);
            assert(hanging(h2, limit));
        }
        lemma_put(t, b2);
        lemma_grown_chain(s0, t, t.put(b2));
    }
}

proof fn lemma_circle_under(
    s: StepState,
    centre: Point3,
    normal: UnitVec3,
    xref: UnitVec3,
    radius: Real,
    a: Seq<char>,
    b: Seq<char>,
    c: Seq<char>,
)
    requires
        plain(a),
        plain(b),
        plain(c),
    ensures
        ({
            let s1 = s.point(centre, a);
            let s2 = s1.direction(normal, b);
            let s3 = s2.direction(xref, c);
            quiet(
                s,
                s3.placement(""@, s1.counter, s2.counter, s3.counter).over1("CIRCLE"@, radius),
            )
        }),
{
    let s1 = s.point(centre, a);
    let s2 = s1.direction(normal, b);
    let s3 = s2.direction(xref, c);
    let s4 = s3.placement(""@, s1.counter, s2.counter, s3.counter);
    lemma_pieces();
    lemma_kinds();
    lemma_point(s, centre, a);
    lemma_direction2(s1, normal, b, ""@);
    lemma_direction2(s2, xref, c, ""@);
    lemma_placement(s3, ""@, s1.counter, s2.counter, s3.counter);
    lemma_over(s4, "CIRCLE"@, radius, radius);
    lemma_quiet_chain(s, s1, s2);
    lemma_quiet_chain(s, s2, s3);
    lemma_quiet_chain(s, s3, s4);
    lemma_quiet_chain(s, s4, s4.over1("CIRCLE"@, radius));
}

/// The edge curve of a circle.
pub proof fn lemma_circle_curve(
    s: StepState,
    centre: Point3,
    normal: UnitVec3,
    radius: Real,
    sheet: CircleSheet,
    orient: bool,
)
    ensures
        after(s, s.circle_curve(centre, normal, radius, sheet, orient)),
        s.circle_curve(centre, normal, radius, sheet, orient).edges.dom().contains(
            circle_key(sheet),
        ),
{
    if s.edges.dom().contains(circle_key(sheet)) {
        lemma_after_self(s);
    } else {
        let s1 = s.point(centre, "c"@);
        let s2 = s1.direction(normal, "cn"@);
        let s3 = s2.direction(sheet.x_dir, "cx"@);
        let s4 = s3.placement(""@, s1.counter, s2.counter, s3.counter).over1("CIRCLE"@, radius);
        let s5 = s4.vertex(sheet.seam);
        let v = s4.vertex_at(sheet.seam);
        lemma_labels();
        lemma_circle_under(s, centre, normal, sheet.x_dir, radius, "c"@, "cn"@, "cx"@);
        lemma_vertex(s4, sheet.seam);
        lemma_after_chain(s, s4, s5);
        let start: usize = if orient {
            1
        } else {
            0
        };
        lemma_remembered(s5, v, v, s4.counter, true, circle_key(sheet), start);
        lemma_after_chain(s, s5, s.circle_curve(centre, normal, radius, sheet, orient));
    }
}

/// The bound by a circle.
pub proof fn lemma_circle_bound(
    s: StepState,
    centre: Point3,
    normal: UnitVec3,
    radius: Real,
    sheet: CircleSheet,
    outer: bool,
    orient: bool,
)
    ensures
        grown(s, s.circle_bound(centre, normal, radius, sheet, outer, orient)),
        s.circle_bound(centre, normal, radius, sheet, outer, orient).counter > s.counter,
        s.circle_bound(centre, normal, radius, sheet, outer, orient).edges == s.circle_curve(
            centre,
            normal,
            radius,
            sheet,
            orient,
        ).edges,
{
    let key = circle_key(sheet);
    let first = !s.edges.dom().contains(key);
    let t = s.circle_curve(centre, normal, radius, sheet, orient);
    let u = t.used_closed(key, first, orient);
    if first {
        let s1 = s.point(centre, "c"@);
        let s2 = s1.direction(normal, "cn"@);
        let s3 = s2.direction(sheet.x_dir, "cx"@);
        let s4 = s3.placement(""@, s1.counter, s2.counter, s3.counter).over1("CIRCLE"@, radius);
        let s5 = s4.vertex(sheet.seam);
        let v = s4.vertex_at(sheet.seam);
        lemma_labels();
        lemma_circle_under(s, centre, normal, sheet.x_dir, radius, "c"@, "cn"@, "cx"@);
        lemma_vertex(s4, sheet.seam);
        lemma_grown_chain(s, s4, s5);
        let start: usize = if orient {
            1
        } else {
            0
        };
        lemma_new_use(s, s5, v, v, s4.counter, true, key, start, Way::Round, orient);
        let m = s5.edge_curve(v, v, s4.counter, true).remember(key, start);
        assert(t == m);
        assert(u == m.oriented(m.last(), Way::Round, orient));
    } else {
        lemma_again_use(s, key, Way::Round, s.edges[key].1 == 0);
    }
    lemma_single_bound(u, outer);
    lemma_grown_chain(s, u, u.single_bound(outer));
}

/// The bound by an ellipse.
pub proof fn lemma_ellipse_bound(
    s: StepState,
    ellipse: Ellipse3,
    sheet: EllipseSheet,
    outer: bool,
    orient: bool,
)
    ensures
        grown(s, s.ellipse_bound(ellipse, sheet, outer, orient)),
        s.ellipse_bound(ellipse, sheet, outer, orient).counter > s.counter,
        s.ellipse_bound(ellipse, sheet, outer, orient).edges == s.ellipse_curve(
            ellipse,
            sheet,
            orient,
        ).edges,
        s.ellipse_curve(ellipse, sheet, orient).edges.dom().contains(ellipse_key(sheet)),
{
    let key = ellipse_key(sheet);
    let first = !s.edges.dom().contains(key);
    let t = s.ellipse_curve(ellipse, sheet, orient);
    let u = t.used_closed(key, first, orient);
    if first {
        let s0 = s.axis2(ellipse.frame, "ellipse_ax"@);
        let s1 = s.ellipse(ellipse);
        let s2 = s1.vertex(sheet.seam);
        let v = s1.vertex_at(sheet.seam);
        lemma_labels();
        lemma_kinds();
        lemma_axis2(s, ellipse.frame, "ellipse_ax"@);
        lemma_over(s0, "ELLIPSE"@, ellipse.semi_major, ellipse.semi_minor);
        lemma_quiet_chain(s, s0, s1);
        lemma_vertex(s1, sheet.seam);
        lemma_grown_chain(s, s1, s2);
        let start: usize = if orient {
            1
        } else {
            0
        };
        lemma_new_use(s, s2, v, v, s1.counter, true, key, start, Way::Round, orient);
        let m = s2.edge_curve(v, v, s1.counter, true).remember(key, start);
        assert(t == m);
        assert(u == m.oriented(m.last(), Way::Round, orient));
    } else {
        lemma_again_use(s, key, Way::Round, s.edges[key].1 == 0);
    }
    lemma_single_bound(u, outer);
    lemma_grown_chain(s, u, u.single_bound(outer));
}

proof fn lemma_boundary(
    s: StepState,
    boundary: FaceBoundary,
    sheet: BoundarySheet,
    outer: bool,
    orient: bool,
)
    ensures
        grown(s, s.boundary(boundary, sheet, outer, orient)),
{
    match (boundary, sheet) {
        (FaceBoundary::Circle(c), BoundarySheet::Circle(b)) => {
            lemma_circle_bound(s, c.frame.origin, c.frame.z, c.radius, b, outer, orient);
        },
        (FaceBoundary::Ellipse(e), BoundarySheet::Ellipse(b)) => {
            lemma_ellipse_bound(s, e, b, outer, orient);
        },
        _ => {
            lemma_grown_self(s);
        },
    }
}

proof fn lemma_ring_vertices(s: StepState, points: Seq<StepPoint>, k: int)
    requires
        0 <= k,
    ensures
        listed(s, ring_vertices(s, points, k)),
        ring_vertices(s, points, k).ids.len() == k,
    decreases k,
{
    if k <= 0 {
        lemma_grown_self(s);
    } else {
        let t = ring_vertices(s, points, k - 1).state;
        lemma_ring_vertices(s, points, k - 1);
        lemma_vertex(t, points[k - 1]);
        lemma_grown_chain(s, t, t.vertex(points[k - 1]));
    }
}

proof fn lemma_ring_sides(
    s0: StepState,
    s: StepState,
    points: Seq<StepPoint>,
    sides: Seq<SideSheet>,
    vertices: Seq<usize>,
    k: int,
)
    requires
        listed(s0, (Emitted { state: s, ids: vertices })),
        0 <= k <= points.len(),
        vertices.len() == points.len(),
    ensures
        listed(s0, ring_sides(s, points, sides, vertices, k)),
        s.counter <= ring_sides(s, points, sides, vertices, k).state.counter,
    decreases k,
{
    if k > 0 {
        let done = ring_sides(s, points, sides, vertices, k - 1);
        let t = done.state;
        lemma_ring_sides(s0, s, points, sides, vertices, k - 1);
        let i = k - 1;
        let from = vertices[i];
        let to = vertices[ring_next(i, points.len() as int)];
        lemma_labels();
        if side_counts(sides[i]) {
            lemma_segment_use(s0, t, points[i].at, sides[i].dir->0, from, to, "lp"@, "ld"@);
        }
    }
}

proof fn lemma_ring_bound(s: StepState, points: Seq<StepPoint>, sides: Seq<SideSheet>)
    ensures
        listed(s, ring_bound(s, points, sides)),
{
    let n = points.len() as int;
    let corners = ring_vertices(s, points, n);
    lemma_ring_vertices(s, points, n);
    lemma_ring_sides(s, corners.state, points, sides, corners.ids, n);
    lemma_finished(s, ring_sides(corners.state, points, sides, corners.ids, n));
}

proof fn lemma_shared_line(
    s0: StepState,
    done: Emitted,
    from: StepPoint,
    to: StepPoint,
    side: SideSheet,
)
    requires
        listed(s0, done),
    ensures
        listed(s0, shared_line(done, from, to, side)),
{
    reveal(shared_line);
    let s = done.state;
    let s1 = s.vertex(from);
    let v_from = s.vertex_at(from);
    let s2 = s1.vertex(to);
    let v_to = s1.vertex_at(to);
    lemma_vertex(s, from);
    lemma_vertex(s1, to);
    lemma_grown_chain(s0, s, s1);
    lemma_grown_chain(s0, s1, s2);
    lemma_labels();
    lemma_segment_use(s0, s2, from.at, side.dir->0, v_from, v_to, "rbl_p"@, "rbl_d"@);
}

/// A use of an arc.
pub proof fn lemma_shared_arc(
    s0: StepState,
    done: Emitted,
    from: StepPoint,
    to: StepPoint,
    arc: ArcSheet,
)
    requires
        listed(s0, done),
    ensures
        listed(s0, shared_arc(done, from, to, arc)),
{
    reveal(shared_arc);
    let s = done.state;
    let s1 = s.vertex(from);
    let v_from = s.vertex_at(from);
    let s2 = s1.vertex(to);
    let v_to = s1.vertex_at(to);
    let key = arc_key(from.key, to.key, arc);
    lemma_vertex(s, from);
    lemma_vertex(s1, to);
    lemma_grown_chain(s0, s, s1);
    lemma_grown_chain(s0, s1, s2);
    let t = s2.arc_curve(arc, key, v_from, v_to);
    let u = t.used_from(key, v_from);
    if s2.edges.dom().contains(key) {
        lemma_again_use(s2, key, Way::From(v_from), s2.edges[key].1 == v_from);
        lemma_grown_chain(s0, s2, u);
    } else {
        let a1 = s2.point(arc.centre.at, "rba_c"@);
        let a2 = a1.direction(arc.axis, "rba_n"@);
        let a3 = a2.direction(arc.xref, "rba_x"@);
        let a5 = a3.placement(""@, a1.counter, a2.counter, a3.counter).over1(
            "CIRCLE"@,
            arc.radius,
        );
        let along = (Real { bits: 0 }).at_most(arc.turn);
        lemma_labels();
        lemma_circle_under(
            s2,
            arc.centre.at,
            arc.axis,
            arc.xref,
            arc.radius,
            "rba_c"@,
            "rba_n"@,
            "rba_x"@,
        );
        lemma_grown_chain(s0, s2, a5);
        lemma_new_use(
            s0,
            a5,
            v_from,
            v_to,
            a5.counter,
            along,
            key,
            v_from,
            Way::From(v_from),
            true,
        );
        let m = a5.edge_curve(v_from, v_to, a5.counter, along).remember(key, v_from);
        assert(t == m);
        assert(u == m.oriented(m.last(), Way::From(v_from), true));
    }
}

proof fn lemma_cap_uses(s0: StepState, done: Emitted, cap: CapSheet, plus_y: bool, k: int)
    requires
        listed(s0, done),
    ensures
        listed(s0, cap_uses(done, cap, plus_y, k)),
    decreases k,
{
    if k > 0 {
        let so_far = cap_uses(done, cap, plus_y, k - 1);
        lemma_cap_uses(s0, done, cap, plus_y, k - 1);
        let seg = if plus_y {
            8 - k
        } else {
            k - 1
        };
        let low = cap.points@[seg];
        let high = cap.points@[eighth_after(seg)];
        let from = if plus_y {
            high
        } else {
            low
        };
        let to = if plus_y {
            low
        } else {
            high
        };
        lemma_shared_arc(s0, so_far, from, to, cap.corners@[seg / 2]);
        lemma_shared_line(s0, so_far, from, to, cap.sides@[seg / 2]);
    }
}

proof fn lemma_arc_face_uses(s0: StepState, done: Emitted, sheet: ArcFaceSheet)
    requires
        listed(s0, done),
    ensures
        listed(s0, arc_face_uses(done, sheet)),
{
    let e1 = shared_line(done, sheet.start_low, sheet.start_high, sheet.up);
    let e2 = shared_arc(e1, sheet.start_high, sheet.end_high, sheet.top);
    let e3 = shared_line(e2, sheet.end_high, sheet.end_low, sheet.down);
    lemma_shared_line(s0, done, sheet.start_low, sheet.start_high, sheet.up);
    lemma_shared_arc(s0, e1, sheet.start_high, sheet.end_high, sheet.top);
    lemma_shared_line(s0, e2, sheet.end_high, sheet.end_low, sheet.down);
    lemma_shared_arc(s0, e3, sheet.end_low, sheet.start_low, sheet.bottom);
}

proof fn lemma_two_boundaries(
    s: StepState,
    a: FaceBoundary,
    sa: BoundarySheet,
    b: FaceBoundary,
    sb: BoundarySheet,
)
    requires
        s.counter >= 1,
    ensures
        ({
            let s1 = s.boundary(a, sa, true, true);
            let s2 = s1.boundary(b, sb, false, false);
            listed(s, (Emitted { state: s2, ids: seq![s1.last(), s2.last()] }))
        }),
{
    let t = s.boundary(a, sa, true, true);
    lemma_boundary(s, a, sa, true, true);
    lemma_boundary(t, b, sb, false, false);
    lemma_grown_chain(s, t, t.boundary(b, sb, false, false));
}

/// The bounds of a face.
pub proof fn lemma_face_bounds(s: StepState, face: Face, sheet: FaceSheet)
    requires
        s.counter >= 1,
    ensures
        listed(s, face_bounds(s, face, sheet)),
{
    lemma_grown_self(s);
    assert(listed(s, no_bounds(s)));
    match (face.extent, sheet) {
        (FaceExtent::Cylinder { length, start: a, end: b }, FaceSheet::Two { start, end }) => {
            lemma_two_boundaries(s, a, start, b, end);
        },
        (
            FaceExtent::TorusFillet { start_circle, end_circle },
            FaceSheet::Two { start, end },
        ) => {
            lemma_two_boundaries(
                s,
                FaceBoundary::Circle(start_circle),
                start,
                FaceBoundary::Circle(end_circle),
                end,
            );
        },
        (FaceExtent::PlanarBoundary { boundary }, FaceSheet::One(b)) => {
            lemma_boundary(s, boundary, b, true, true);
        },
        (FaceExtent::Disk { radius }, FaceSheet::One(BoundarySheet::Circle(c))) => {
            if let FaceGeom::Plane(p) = face.geom {
                lemma_circle_bound(s, p.frame.origin, p.frame.z, radius, c, true, true);
            }
        },
        (_, FaceSheet::Ring(Some(ring))) => {
            lemma_ring_bound(s, ring.points@, ring.sides@);
        },
        (_, FaceSheet::Band(band)) => {
            lemma_ring_bound(s, band_ring(band), band.sides@);
        },
        (_, FaceSheet::ArcFace(Some(arc))) => {
            lemma_arc_face_uses(s, no_bounds(s), arc);
            lemma_finished(s, arc_face_uses(no_bounds(s), arc));
        },
        (_, FaceSheet::Cap(cap)) => {
            lemma_cap_uses(s, no_bounds(s), cap, true, 8);
            lemma_cap_uses(s, no_bounds(s), cap, false, 8);
            lemma_finished(s, cap_uses(no_bounds(s), cap, true, 8));
            lemma_finished(s, cap_uses(no_bounds(s), cap, false, 8));
        },
        _ => {},
    }
}

/// What a face says.
spec fn face_body(ids: Seq<usize>, surface: nat, same: bool) -> Script {
    Script::empty().text("ADVANCED_FACE('',("@).refs(ids).text("),(#"@).whole(surface).text(
        "),"@,
    ).text(flag(same)).text(")"@)
}

proof fn lemma_face_body(limit: nat, ids: Seq<usize>, surface: nat, same: bool)
    ensures
        aside(face_body(ids, surface, same)),
        among(ids, limit) && 1 <= surface <= limit ==> settled(
            face_body(ids, surface, same),
            limit,
        ),
{
    let x = "ADVANCED_FACE('',("@;
    let head = Script::empty().text(x);
    let listed = head.refs(ids);
    assert(plain(x) && lead(x) && hook("),(#"@) && opens("),(#"@) && plain("),"@) && opens("),"@)
        && x.len() > 0 && x.last() != '\n') by {
        reveal(plain);
        reveal(lead);
        reveal(hook);
        reveal(opens);
        reveal_strlit("ADVANCED_FACE('',(");
        reveal_strlit("),(#");
        reveal_strlit("),");
    }
    lemma_pieces();
    assert(aside(face_body(ids, surface, same))) by {
        lemma_aside();
        assert(aside(head));
        lemma_aside_refs(head, ids);
    }
    if among(ids, limit) && 1 <= surface <= limit {
        lemma_refs(x, ids, limit);
        law_references(limit);
        let t = listed.text("),(#"@);
        assert(hanging(t, limit));
        assert(counting(t.whole(surface), limit));
        assert(settled(t.whole(surface).text("),"@), limit));
    }
}

/// A face.
pub proof fn lemma_advanced_face(s: StepState, face: Face, sheet: FaceSheet)
    ensures
        grown(s, s.advanced_face(face, sheet)),
        s.counter < s.advanced_face(face, sheet).counter,
{
    reveal(StepState::advanced_face);
    let t = s.surface(face.geom);
    lemma_surface(s, face.geom);
    lemma_face_bounds(t, face, sheet);
    lemma_faced(s, t, face_bounds(t, face, sheet), face.normal is Same);
}

/// A face on a surface with some bounds.
proof fn lemma_faced(s: StepState, t: StepState, bounds: Emitted, same: bool)
    requires
        quiet(s, t),
        listed(t, bounds),
    ensures
        grown(s, bounds.state.put(face_body(bounds.ids, t.counter, same))),
{
    let body = face_body(bounds.ids, t.counter, same);
    lemma_face_body(0, bounds.ids, t.counter, same);
    assert forall|limit: nat| #[trigger]
        neat(t, limit) && bounds.state.counter + 1 <= limit <= usize::MAX implies settled(
        body,
        limit,
    ) by {
        lemma_neat_sound(t, limit);
        lemma_face_body(limit, bounds.ids, t.counter, same);
    }
    lemma_put_since(t, bounds.state, body);
    lemma_grown_chain(s, t, bounds.state.put(body));
}

} // verus!
