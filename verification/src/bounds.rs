//! Emission of the bounds of a face.
//!
//! Edge curves are shared between the faces that meet there: the first face to
//! use a curve emits it, the next finds it again and runs along it the other
//! way. Points, keys and directions come measured.

use vstd::prelude::*;

use crate::brep::ring_next;
use crate::entities::{Face, FaceBoundary, FaceExtent, FaceGeom};
use crate::geometry::{Ellipse3, Point3, UnitVec3};
use crate::scalar::Real;
use crate::script::{Line, Script};
use crate::step::{
    Ctx, GridKey, StepCurveKey, StepState, StepUse, Way, emit_ellipse, emit_placement, emit_point,
    emit_unit_direction,
};

verus! {

/// 1e-7: a shorter side of a ring is passed over.
pub const NO_SIDE: u64 = 0x3e7ad7f29abcaf48;

/// 1e-9: a shorter shared line is passed over.
pub const NO_LINE: u64 = 0x3e112e0be826d695;

/// A point and its place on the grid.
#[derive(Clone, Copy, Debug, PartialEq, Eq, Structural)]
pub struct StepPoint {
    /// The point.
    pub at: Point3,
    /// Its place on the grid.
    pub key: GridKey,
}

/// A straight side, measured.
#[derive(Clone, Copy, Debug, PartialEq, Eq, Structural)]
pub struct SideSheet {
    /// Its length.
    pub length: Real,
    /// Its direction, where it has one.
    pub dir: Option<UnitVec3>,
}

/// A ring of straight sides: side `i` runs from point `i` to the next.
#[derive(Debug)]
pub struct RingSheet {
    /// The corners.
    pub points: Vec<StepPoint>,
    /// The sides.
    pub sides: Vec<SideSheet>,
}

/// A full circle, measured.
#[derive(Clone, Copy, Debug, PartialEq, Eq, Structural)]
pub struct CircleSheet {
    /// The centre's place on the grid.
    pub center: GridKey,
    /// The normal in tenths, rounded.
    pub tenths: GridKey,
    /// The radius in millionths, rounded.
    pub radius_micro: i64,
    /// A direction across the normal.
    pub x_dir: UnitVec3,
    /// The point on the circle in that direction.
    pub seam: StepPoint,
}

/// A full ellipse, measured.
#[derive(Clone, Copy, Debug, PartialEq, Eq, Structural)]
pub struct EllipseSheet {
    /// The centre's place on the grid.
    pub center: GridKey,
    /// The normal in tenths, rounded.
    pub tenths: GridKey,
    /// The larger half axis in millionths, rounded.
    pub semi_major_micro: i64,
    /// The smaller half axis in millionths, rounded.
    pub semi_minor_micro: i64,
    /// The point at the end of the larger half axis.
    pub seam: StepPoint,
}

/// A closed boundary, measured.
#[derive(Clone, Copy, Debug, PartialEq, Eq, Structural)]
pub enum BoundarySheet {
    /// A circle.
    Circle(CircleSheet),
    /// An ellipse.
    Ellipse(EllipseSheet),
}

/// An arc between two points, measured.
#[derive(Clone, Copy, Debug, PartialEq, Eq, Structural)]
pub struct ArcSheet {
    /// The centre.
    pub centre: StepPoint,
    /// The normal of its plane.
    pub axis: UnitVec3,
    /// Angle zero in its plane.
    pub xref: UnitVec3,
    /// The radius.
    pub radius: Real,
    /// The radius in millionths, rounded.
    pub radius_micro: i64,
    /// The normal's place on the grid.
    pub axis_key: GridKey,
    /// The place of angle zero on the grid.
    pub xref_key: GridKey,
    /// The angle from the arc's start to its end, the short way round.
    pub turn: Real,
}

/// The first non-zero component, if there is one, is positive.
pub open spec fn forward(v: GridKey) -> bool {
    if v.x != 0 {
        v.x > 0
    } else if v.y != 0 {
        v.y > 0
    } else {
        v.z >= 0
    }
}

/// The direction the other way.
pub open spec fn backward(v: GridKey) -> GridKey {
    GridKey { x: (-v.x) as i64, y: (-v.y) as i64, z: (-v.z) as i64 }
}

/// The same key for a direction and for its opposite.
pub open spec fn undirected(v: GridKey) -> GridKey {
    if forward(v) {
        v
    } else {
        backward(v)
    }
}

/// Whether each component has an opposite.
pub open spec fn reversible(v: GridKey) -> bool {
    v.x > i64::MIN && v.y > i64::MIN && v.z > i64::MIN
}

/// The same key for a direction and for its opposite.
pub fn normal_key(v: GridKey) -> (key: GridKey)
    requires
        reversible(v),
    ensures
        key == undirected(v),
        key == undirected(backward(v)),
{
    let mut x: i64 = v.x;
    let mut y: i64 = v.y;
    let mut z: i64 = v.z;
    if x != 0 {
        if x < 0 {
            x = -x;
            y = -y;
            z = -z;
        }
    } else if y != 0 {
        if y < 0 {
            y = -y;
            z = -z;
        }
    } else if z != 0 {
        if z < 0 {
            z = -z;
        }
    }
    GridKey { x, y, z }
}

/// Whether one place on the grid is before another.
pub open spec fn grid_before(a: GridKey, b: GridKey) -> bool {
    a.x < b.x || (a.x == b.x && (a.y < b.y || (a.y == b.y && a.z < b.z)))
}

/// The key of an arc, the same from either end.
pub open spec fn arc_key(from: GridKey, to: GridKey, arc: ArcSheet) -> StepCurveKey {
    StepCurveKey::Arc {
        low: if grid_before(to, from) {
            to
        } else {
            from
        },
        high: if grid_before(to, from) {
            from
        } else {
            to
        },
        center: arc.centre.key,
        radius_micro: arc.radius_micro,
        axis: arc.axis_key,
        xref: arc.xref_key,
    }
}

/// The key of an arc.
pub fn arc_edge_key(from: GridKey, to: GridKey, arc: &ArcSheet) -> (key: StepCurveKey)
    ensures
        key == arc_key(from, to, *arc),
        key == arc_key(to, from, *arc),
{
    let swap = to.x < from.x || (to.x == from.x && (to.y < from.y || (to.y == from.y && to.z
        < from.z)));
    StepCurveKey::Arc {
        low: if swap {
            to
        } else {
            from
        },
        high: if swap {
            from
        } else {
            to
        },
        center: arc.centre.key,
        radius_micro: arc.radius_micro,
        axis: arc.axis_key,
        xref: arc.xref_key,
    }
}

/// The key of a segment between two vertices.
pub open spec fn line_key(a: usize, b: usize) -> StepCurveKey {
    StepCurveKey::Line {
        v1: if a <= b {
            a
        } else {
            b
        },
        v2: if a <= b {
            b
        } else {
            a
        },
    }
}

/// The key of a circle.
pub open spec fn circle_key(sheet: CircleSheet) -> StepCurveKey {
    StepCurveKey::Circle {
        center: sheet.center,
        radius_micro: sheet.radius_micro,
        normal: undirected(sheet.tenths),
    }
}

/// The key of an ellipse.
pub open spec fn ellipse_key(sheet: EllipseSheet) -> StepCurveKey {
    StepCurveKey::Ellipse {
        center: sheet.center,
        semi_major_micro: sheet.semi_major_micro,
        semi_minor_micro: sheet.semi_minor_micro,
        normal: undirected(sheet.tenths),
    }
}

/// `.T.` or `.F.`.
pub open spec fn flag(same: bool) -> Seq<char> {
    if same {
        ".T."@
    } else {
        ".F."@
    }
}

/// `EDGE_CURVE`: two vertices and a curve between them.
pub open spec fn edge_curve_body(from: nat, to: nat, curve: nat, same: bool) -> Script {
    Script::empty().text("EDGE_CURVE('',#"@).whole(from).text(",#"@).whole(to).text(",#"@).whole(
        curve,
    ).text(","@).text(flag(same)).text(")"@)
}

/// `ORIENTED_EDGE`: an edge curve, along it or against it.
pub open spec fn use_body(curve: nat, same: bool) -> Script {
    Script::empty().text("ORIENTED_EDGE('',*,*,#"@).whole(curve).text(","@).text(flag(same)).text(
        ")"@,
    )
}

impl StepState {
    /// The id of the last entity.
    pub open spec fn last(self) -> usize {
        self.counter as usize
    }

    /// A vertex at a point, unless there is one.
    pub open spec fn vertex(self, p: StepPoint) -> StepState {
        if self.vertices.dom().contains(p.key) {
            self
        } else {
            let s = self.point(p.at, "v"@).over("VERTEX_POINT"@);
            StepState { vertices: s.vertices.insert(p.key, s.last()), ..s }
        }
    }

    /// The id of the vertex at a point.
    pub open spec fn vertex_at(self, p: StepPoint) -> usize {
        self.vertex(p).vertices[p.key]
    }

    /// An edge curve between two vertices over a curve.
    pub open spec fn edge_curve(self, from: usize, to: usize, curve: nat, same: bool) -> StepState {
        self.put(edge_curve_body(from as nat, to as nat, curve, same))
    }

    /// Remember the last entity as the edge curve of a key.
    pub open spec fn remember(self, key: StepCurveKey, start: usize) -> StepState {
        StepState { edges: self.edges.insert(key, (self.last(), start)), ..self }
    }

    /// An oriented use of an edge curve.
    pub open spec fn oriented(self, curve: usize, way: Way, same: bool) -> StepState {
        let s = self.put(use_body(curve as nat, same));
        StepState { uses: s.uses.push(StepUse { curve, way, same }), ..s }
    }

    /// The edge curve of a segment between two vertices, unless there is one.
    pub open spec fn segment(
        self,
        at: Point3,
        dir: UnitVec3,
        from: usize,
        to: usize,
        point_label: Seq<char>,
        dir_label: Seq<char>,
    ) -> StepState {
        if self.edges.dom().contains(line_key(from, to)) {
            self
        } else {
            let s1 = self.point(at, point_label);
            let s2 = s1.direction(dir, dir_label);
            let s3 = s2.put(
                Script::empty().text("LINE('',#"@).whole(s1.counter).text(",#"@).whole(
                    s2.counter,
                ).text(")"@),
            );
            s3.edge_curve(from, to, s3.counter, true).remember(line_key(from, to), from)
        }
    }

    /// A use of an edge curve that is remembered with its start, from a vertex:
    /// along the curve if it starts there.
    pub open spec fn used_from(self, key: StepCurveKey, from: usize) -> StepState {
        self.oriented(self.edges[key].0, Way::From(from), self.edges[key].1 == from)
    }

    /// A loop of oriented edges and the outer bound that it makes.
    pub open spec fn outer_bound(self, uses: Seq<usize>) -> StepState {
        let s = self.put(Script::empty().text("EDGE_LOOP('',("@).refs(uses).text("))"@));
        s.put(Script::empty().text("FACE_OUTER_BOUND('',#"@).whole(s.counter).text(",.T.)"@))
    }

    /// The loop of the last oriented edge alone and the bound that it makes.
    pub open spec fn single_bound(self, outer: bool) -> StepState {
        let s = self.put(
            Script::empty().text("EDGE_LOOP('',(#"@).whole(self.counter).text("))"@),
        );
        s.put(
            Script::empty().text(
                if outer {
                    "FACE_OUTER_BOUND"@
                } else {
                    "FACE_BOUND"@
                },
            ).text("('',#"@).whole(s.counter).text(",.T.)"@),
        )
    }

    /// A closed curve's use: its first user goes its own way, any later one
    /// against the first.
    pub open spec fn used_closed(self, key: StepCurveKey, first: bool, orient: bool) -> StepState {
        self.oriented(
            self.edges[key].0,
            Way::Round,
            if first {
                orient
            } else {
                self.edges[key].1 == 0
            },
        )
    }

    /// The edge curve of a full circle, unless there is one.
    pub open spec fn circle_curve(
        self,
        centre: Point3,
        normal: UnitVec3,
        radius: Real,
        sheet: CircleSheet,
        orient: bool,
    ) -> StepState {
        if self.edges.dom().contains(circle_key(sheet)) {
            self
        } else {
            let s1 = self.point(centre, "c"@);
            let s2 = s1.direction(normal, "cn"@);
            let s3 = s2.direction(sheet.x_dir, "cx"@);
            let s4 = s3.placement(""@, s1.counter, s2.counter, s3.counter).over1(
                "CIRCLE"@,
                radius,
            );
            let s5 = s4.vertex(sheet.seam);
            let v = s4.vertex_at(sheet.seam);
            s5.edge_curve(v, v, s4.counter, true).remember(
                circle_key(sheet),
                if orient {
                    1
                } else {
                    0
                },
            )
        }
    }

    /// The bound by a full circle.
    pub open spec fn circle_bound(
        self,
        centre: Point3,
        normal: UnitVec3,
        radius: Real,
        sheet: CircleSheet,
        outer: bool,
        orient: bool,
    ) -> StepState {
        let first = !self.edges.dom().contains(circle_key(sheet));
        self.circle_curve(centre, normal, radius, sheet, orient).used_closed(
            circle_key(sheet),
            first,
            orient,
        ).single_bound(outer)
    }

    /// The edge curve of a full ellipse, unless there is one.
    pub open spec fn ellipse_curve(
        self,
        ellipse: Ellipse3,
        sheet: EllipseSheet,
        orient: bool,
    ) -> StepState {
        if self.edges.dom().contains(ellipse_key(sheet)) {
            self
        } else {
            let s1 = self.ellipse(ellipse);
            let s2 = s1.vertex(sheet.seam);
            let v = s1.vertex_at(sheet.seam);
            s2.edge_curve(v, v, s1.counter, true).remember(
                ellipse_key(sheet),
                if orient {
                    1
                } else {
                    0
                },
            )
        }
    }

    /// The bound by a full ellipse.
    pub open spec fn ellipse_bound(
        self,
        ellipse: Ellipse3,
        sheet: EllipseSheet,
        outer: bool,
        orient: bool,
    ) -> StepState {
        let first = !self.edges.dom().contains(ellipse_key(sheet));
        self.ellipse_curve(ellipse, sheet, orient).used_closed(
            ellipse_key(sheet),
            first,
            orient,
        ).single_bound(outer)
    }
}

/// The text of a flag.
fn flag_text(same: bool) -> (text: &'static str)
    ensures
        text@ == flag(same),
{
    if same {
        ".T."
    } else {
        ".F."
    }
}

/// A vertex at a point: the one that is there, or a new one.
pub fn emit_vertex_point(ctx: &mut Ctx, p: StepPoint) -> (id: usize)
    requires
        old(ctx).wf(),
    ensures
        final(ctx).wf(),
        final(ctx)@ == old(ctx)@.vertex(p),
        id == old(ctx)@.vertex_at(p),
{
    match ctx.vertex_cache.get(&p.key) {
        Some(id) => id,
        None => {
            let pt_id: usize = emit_point(ctx, p.at, "v");
            let id: usize = ctx.put(
                &Line::new().text("VERTEX_POINT").text("('',#").whole(pt_id).text(")"),
            );
            ctx.vertex_cache.insert(p.key, id);
            id
        },
    }
}

/// An edge curve between two vertices over a curve.
fn emit_edge_curve(ctx: &mut Ctx, from: usize, to: usize, curve: usize, same: bool) -> (id: usize)
    requires
        old(ctx).wf(),
    ensures
        final(ctx).wf(),
        final(ctx)@ == old(ctx)@.edge_curve(from, to, curve as nat, same),
        id == final(ctx).counter,
{
    ctx.put(
        &Line::new().text("EDGE_CURVE('',#").whole(from).text(",#").whole(to).text(",#").whole(
            curve,
        ).text(",").text(flag_text(same)).text(")"),
    )
}

/// An oriented use of an edge curve.
fn emit_oriented(ctx: &mut Ctx, curve: usize, Ghost(way): Ghost<Way>, same: bool) -> (id: usize)
    requires
        old(ctx).wf(),
    ensures
        final(ctx).wf(),
        final(ctx)@ == old(ctx)@.oriented(curve, way, same),
        id == final(ctx).counter,
{
    let id: usize = ctx.put(
        &Line::new().text("ORIENTED_EDGE('',*,*,#").whole(curve).text(",").text(
            flag_text(same),
        ).text(")"),
    );
    proof {
        ctx.uses@ = ctx.uses@.push(StepUse { curve, way, same });
    }
    id
}

/// The loop of the last oriented edge alone and the bound that it makes.
fn emit_single_bound(ctx: &mut Ctx, outer: bool) -> (id: usize)
    requires
        old(ctx).wf(),
    ensures
        final(ctx).wf(),
        final(ctx)@ == old(ctx)@.single_bound(outer),
        id == final(ctx).counter,
{
    let oe_id: usize = ctx.counter;
    let el_id: usize = ctx.put(&Line::new().text("EDGE_LOOP('',(#").whole(oe_id).text("))"));
    let kind = if outer {
        "FACE_OUTER_BOUND"
    } else {
        "FACE_BOUND"
    };
    ctx.put(&Line::new().text(kind).text("('',#").whole(el_id).text(",.T.)"))
}

/// The bound by a full circle.
pub fn emit_circle_bound(
    ctx: &mut Ctx,
    centre: Point3,
    normal: UnitVec3,
    radius: Real,
    sheet: &CircleSheet,
    outer: bool,
    orient: bool,
) -> (id: usize)
    requires
        old(ctx).wf(),
        reversible(sheet.tenths),
    ensures
        final(ctx).wf(),
        final(ctx)@ == old(ctx)@.circle_bound(centre, normal, radius, *sheet, outer, orient),
        id == final(ctx).counter,
{
    let key = StepCurveKey::Circle {
        center: sheet.center,
        radius_micro: sheet.radius_micro,
        normal: normal_key(sheet.tenths),
    };
    match ctx.edge_cache.get(&key) {
        Some(pair) => {
            let oe: usize = emit_oriented(ctx, pair.0, Ghost(Way::Round), pair.1 == 0);
        },
        None => {
            let cp_id: usize = emit_point(ctx, centre, "c");
            let cz_id: usize = emit_unit_direction(ctx, normal, "cn");
            let cx_id: usize = emit_unit_direction(ctx, sheet.x_dir, "cx");
            let ax_id: usize = emit_placement(ctx, "", cp_id, cz_id, cx_id);
            let circ_id: usize = ctx.put(
                &Line::new().text("CIRCLE").text("('',#").whole(ax_id).text(",").number(
                    radius,
                ).text(")"),
            );
            let vtx_id: usize = emit_vertex_point(ctx, sheet.seam);
            let ec_id: usize = emit_edge_curve(ctx, vtx_id, vtx_id, circ_id, true);
            let first: usize = if orient {
                1
            } else {
                0
            };
            ctx.edge_cache.insert(key, (ec_id, first));
            let oe: usize = emit_oriented(ctx, ec_id, Ghost(Way::Round), orient);
        },
    }
    emit_single_bound(ctx, outer)
}

/// The bound by a full ellipse.
pub fn emit_ellipse_bound(
    ctx: &mut Ctx,
    ellipse: &Ellipse3,
    sheet: &EllipseSheet,
    outer: bool,
    orient: bool,
) -> (id: usize)
    requires
        old(ctx).wf(),
        reversible(sheet.tenths),
    ensures
        final(ctx).wf(),
        final(ctx)@ == old(ctx)@.ellipse_bound(*ellipse, *sheet, outer, orient),
        id == final(ctx).counter,
{
    let key = StepCurveKey::Ellipse {
        center: sheet.center,
        semi_major_micro: sheet.semi_major_micro,
        semi_minor_micro: sheet.semi_minor_micro,
        normal: normal_key(sheet.tenths),
    };
    match ctx.edge_cache.get(&key) {
        Some(pair) => {
            let oe: usize = emit_oriented(ctx, pair.0, Ghost(Way::Round), pair.1 == 0);
        },
        None => {
            let ellipse_id: usize = emit_ellipse(ctx, ellipse);
            let vtx_id: usize = emit_vertex_point(ctx, sheet.seam);
            let ec_id: usize = emit_edge_curve(ctx, vtx_id, vtx_id, ellipse_id, true);
            let first: usize = if orient {
                1
            } else {
                0
            };
            ctx.edge_cache.insert(key, (ec_id, first));
            let oe: usize = emit_oriented(ctx, ec_id, Ghost(Way::Round), orient);
        },
    }
    emit_single_bound(ctx, outer)
}

/// Entities and the ids that came of them.
#[verifier::ext_equal]
pub struct Emitted {
    pub state: StepState,
    pub ids: Seq<usize>,
}

/// The vertices of the first `k` points.
pub open spec fn ring_vertices(state: StepState, points: Seq<StepPoint>, k: int) -> Emitted
    decreases k,
{
    if k <= 0 {
        Emitted { state, ids: seq![] }
    } else {
        let done = ring_vertices(state, points, k - 1);
        Emitted {
            state: done.state.vertex(points[k - 1]),
            ids: done.ids.push(done.state.vertex_at(points[k - 1])),
        }
    }
}

/// Whether a side of a ring is long enough to have an edge.
pub open spec fn side_counts(side: SideSheet) -> bool {
    !side.length.below(Real { bits: NO_SIDE }) && side.dir is Some
}

/// The uses of the edges of the first `k` sides of a ring with the given
/// vertices.
pub open spec fn ring_sides(
    state: StepState,
    points: Seq<StepPoint>,
    sides: Seq<SideSheet>,
    vertices: Seq<usize>,
    k: int,
) -> Emitted
    decreases k,
{
    if k <= 0 {
        Emitted { state, ids: seq![] }
    } else {
        let done = ring_sides(state, points, sides, vertices, k - 1);
        let i = k - 1;
        let from = vertices[i];
        let to = vertices[ring_next(i, points.len() as int)];
        if side_counts(sides[i]) {
            let used = done.state.segment(
                points[i].at,
                sides[i].dir->0,
                from,
                to,
                "lp"@,
                "ld"@,
            ).used_from(line_key(from, to), from);
            Emitted { state: used, ids: done.ids.push(used.last()) }
        } else {
            done
        }
    }
}

/// The outer bound of some uses; without any, none.
pub open spec fn finished(done: Emitted) -> Emitted {
    if done.ids.len() == 0 {
        done
    } else {
        let state = done.state.outer_bound(done.ids);
        Emitted { state, ids: seq![state.last()] }
    }
}

/// The bound by a ring of straight sides.
pub open spec fn ring_bound(
    state: StepState,
    points: Seq<StepPoint>,
    sides: Seq<SideSheet>,
) -> Emitted {
    let n = points.len() as int;
    let corners = ring_vertices(state, points, n);
    finished(ring_sides(corners.state, points, sides, corners.ids, n))
}

/// A shared straight edge from one point to another, unless it is too short;
/// without a direction it is used only if it is there.
#[verifier::opaque]
pub open spec fn shared_line(
    done: Emitted,
    from: StepPoint,
    to: StepPoint,
    side: SideSheet,
) -> Emitted {
    let s1 = done.state.vertex(from);
    let v_from = done.state.vertex_at(from);
    let s2 = s1.vertex(to);
    let v_to = s1.vertex_at(to);
    let key = line_key(v_from, v_to);
    if side.length.below(Real { bits: NO_LINE }) {
        done
    } else if !s2.edges.dom().contains(key) && side.dir is None {
        Emitted { state: s2, ..done }
    } else {
        let used = s2.segment(
            from.at,
            side.dir->0,
            v_from,
            v_to,
            "rbl_p"@,
            "rbl_d"@,
        ).used_from(key, v_from);
        Emitted { state: used, ids: done.ids.push(used.last()) }
    }
}

impl StepState {
    /// The edge curve of an arc between two vertices, unless there is one.
    pub open spec fn arc_curve(
        self,
        arc: ArcSheet,
        key: StepCurveKey,
        from: usize,
        to: usize,
    ) -> StepState {
        if self.edges.dom().contains(key) {
            self
        } else {
            let s1 = self.point(arc.centre.at, "rba_c"@);
            let s2 = s1.direction(arc.axis, "rba_n"@);
            let s3 = s2.direction(arc.xref, "rba_x"@);
            let s4 = s3.placement(""@, s1.counter, s2.counter, s3.counter).over1(
                "CIRCLE"@,
                arc.radius,
            );
            s4.edge_curve(from, to, s4.counter, (Real { bits: 0 }).at_most(arc.turn)).remember(
                key,
                from,
            )
        }
    }
}

/// A shared arc from one point to another.
#[verifier::opaque]
pub open spec fn shared_arc(
    done: Emitted,
    from: StepPoint,
    to: StepPoint,
    arc: ArcSheet,
) -> Emitted {
    let s1 = done.state.vertex(from);
    let v_from = done.state.vertex_at(from);
    let s2 = s1.vertex(to);
    let v_to = s1.vertex_at(to);
    let key = arc_key(from.key, to.key, arc);
    let used = s2.arc_curve(arc, key, v_from, v_to).used_from(key, v_from);
    Emitted { state: used, ids: done.ids.push(used.last()) }
}

/// Append the use of a shared straight edge.
pub fn push_shared_line(
    ctx: &mut Ctx,
    from: StepPoint,
    to: StepPoint,
    side: &SideSheet,
    oe_ids: &mut Vec<usize>,
)
    requires
        old(ctx).wf(),
    ensures
        final(ctx).wf(),
        (Emitted { state: final(ctx)@, ids: final(oe_ids)@ }) == shared_line(
            Emitted { state: old(ctx)@, ids: old(oe_ids)@ },
            from,
            to,
            *side,
        ),
{
    proof {
        reveal(shared_line);
    }
    if side.length.lt(Real { bits: NO_LINE }) {
        return;
    }
    let v_from: usize = emit_vertex_point(ctx, from);
    let v_to: usize = emit_vertex_point(ctx, to);
    let pair = match shared_segment(ctx, from.at, side.dir, v_from, v_to, "rbl_p", "rbl_d") {
        None => {
            return;
        },
        Some(pair) => pair,
    };
    let oe: usize = emit_oriented(ctx, pair.0, Ghost(Way::From(v_from)), pair.1 == v_from);
    oe_ids.push(oe);
}

/// The edge curve of a segment between two vertices and where it starts; none
/// if there is none yet and no direction to make it.
fn shared_segment(
    ctx: &mut Ctx,
    at: Point3,
    dir: Option<UnitVec3>,
    from: usize,
    to: usize,
    point_label: &str,
    dir_label: &str,
) -> (pair: Option<(usize, usize)>)
    requires
        old(ctx).wf(),
    ensures
        final(ctx).wf(),
        pair is None <==> !old(ctx)@.edges.dom().contains(line_key(from, to)) && dir is None,
        pair is None ==> final(ctx)@ == old(ctx)@,
        pair is Some ==> final(ctx)@ == old(ctx)@.segment(
            at,
            dir->0,
            from,
            to,
            point_label@,
            dir_label@,
        ) && pair->0 == final(ctx)@.edges[line_key(from, to)],
{
    let key = StepCurveKey::Line {
        v1: if from <= to {
            from
        } else {
            to
        },
        v2: if from <= to {
            to
        } else {
            from
        },
    };
    match ctx.edge_cache.get(&key) {
        Some(pair) => Some(pair),
        None => match dir {
            None => None,
            Some(dir) => {
                let lp: usize = emit_point(ctx, at, point_label);
                let ld: usize = emit_unit_direction(ctx, dir, dir_label);
                let li: usize = ctx.put(
                    &Line::new().text("LINE('',#").whole(lp).text(",#").whole(ld).text(")"),
                );
                let ec: usize = emit_edge_curve(ctx, from, to, li, true);
                ctx.edge_cache.insert(key, (ec, from));
                Some((ec, from))
            },
        },
    }
}

/// Append the use of a shared arc.
pub fn push_shared_arc(
    ctx: &mut Ctx,
    from: StepPoint,
    to: StepPoint,
    arc: &ArcSheet,
    oe_ids: &mut Vec<usize>,
)
    requires
        old(ctx).wf(),
    ensures
        final(ctx).wf(),
        (Emitted { state: final(ctx)@, ids: final(oe_ids)@ }) == shared_arc(
            Emitted { state: old(ctx)@, ids: old(oe_ids)@ },
            from,
            to,
            *arc,
        ),
{
    proof {
        reveal(shared_arc);
    }
    let v_from: usize = emit_vertex_point(ctx, from);
    let v_to: usize = emit_vertex_point(ctx, to);
    let key = arc_edge_key(from.key, to.key, arc);
    let pair = match ctx.edge_cache.get(&key) {
        Some(pair) => pair,
        None => {
            let cp: usize = emit_point(ctx, arc.centre.at, "rba_c");
            let cn: usize = emit_unit_direction(ctx, arc.axis, "rba_n");
            let cx: usize = emit_unit_direction(ctx, arc.xref, "rba_x");
            let ax: usize = emit_placement(ctx, "", cp, cn, cx);
            let ci: usize = ctx.put(
                &Line::new().text("CIRCLE").text("('',#").whole(ax).text(",").number(
                    arc.radius,
                ).text(")"),
            );
            let same = arc.turn.ge(Real { bits: 0 });
            let ec: usize = emit_edge_curve(ctx, v_from, v_to, ci, same);
            ctx.edge_cache.insert(key, (ec, v_from));
            (ec, v_from)
        },
    };
    let oe: usize = emit_oriented(ctx, pair.0, Ghost(Way::From(v_from)), pair.1 == v_from);
    oe_ids.push(oe);
}

/// The outer bound of some uses; without any, none.
pub fn finish_outer_bound(ctx: &mut Ctx, oe_ids: &Vec<usize>) -> (bounds: Vec<usize>)
    requires
        old(ctx).wf(),
    ensures
        final(ctx).wf(),
        (Emitted { state: final(ctx)@, ids: bounds@ }) == finished(
            Emitted { state: old(ctx)@, ids: oe_ids@ },
        ),
{
    let mut bounds: Vec<usize> = Vec::new();
    if oe_ids.len() == 0 {
        assert(bounds@ =~= oe_ids@);
        return bounds;
    }
    let el: usize = ctx.put(&Line::new().text("EDGE_LOOP('',(").refs(oe_ids).text("))"));
    let fb: usize = ctx.put(&Line::new().text("FACE_OUTER_BOUND('',#").whole(el).text(",.T.)"));
    bounds.push(fb);
    assert(bounds@ =~= seq![fb]);
    bounds
}

/// The bound by a ring of straight sides.
pub fn emit_ring_bound(ctx: &mut Ctx, points: &Vec<StepPoint>, sides: &Vec<SideSheet>) -> (bounds:
    Vec<usize>)
    requires
        old(ctx).wf(),
        sides@.len() == points@.len(),
    ensures
        final(ctx).wf(),
        (Emitted { state: final(ctx)@, ids: bounds@ }) == ring_bound(
            old(ctx)@,
            points@,
            sides@,
        ),
{
    let ghost before = ctx@;
    let n: usize = points.len();
    let mut vtx_ids: Vec<usize> = Vec::new();
    let mut i: usize = 0;
    while i < n
        invariant
            i <= n,
            n == points@.len(),
            ctx.wf(),
            (Emitted { state: ctx@, ids: vtx_ids@ }) == ring_vertices(before, points@, i as int),
        decreases n - i,
    {
        let id: usize = emit_vertex_point(ctx, points[i]);
        vtx_ids.push(id);
        i = i + 1;
    }
    let ghost corners = ring_vertices(before, points@, n as int);
    let mut oe_ids: Vec<usize> = Vec::new();
    let mut j: usize = 0;
    proof {
        lemma_ring_vertices_len(before, points@, n as int);
    }
    while j < n
        invariant
            j <= n,
            n == points@.len(),
            sides@.len() == n,
            vtx_ids@.len() == n,
            ctx.wf(),
            vtx_ids@ == corners.ids,
            (Emitted { state: ctx@, ids: oe_ids@ }) == ring_sides(
                corners.state,
                points@,
                sides@,
                vtx_ids@,
                j as int,
            ),
        decreases n - j,
    {
        let next: usize = if j + 1 == n {
            0
        } else {
            j + 1
        };
        let side = sides[j];
        if !side.length.lt(Real { bits: NO_SIDE }) {
            if let Some(dir) = side.dir {
                let from: usize = vtx_ids[j];
                let to: usize = vtx_ids[next];
                let found = shared_segment(ctx, points[j].at, Some(dir), from, to, "lp", "ld");
                if let Some(pair) = found {
                    let oe: usize = emit_oriented(ctx, pair.0, Ghost(Way::From(from)), pair.1 == from);
                    oe_ids.push(oe);
                }
            }
        }
        j = j + 1;
    }
    finish_outer_bound(ctx, &oe_ids)
}

proof fn lemma_ring_vertices_len(state: StepState, points: Seq<StepPoint>, k: int)
    requires
        0 <= k,
    ensures
        ring_vertices(state, points, k).ids.len() == k,
    decreases k,
{
    if k > 0 {
        lemma_ring_vertices_len(state, points, k - 1);
    }
}

/// The boundary of a cylinder that is cut along its axis, measured.
#[derive(Debug)]
pub struct BandSheet {
    /// The arc at the start of the axis.
    pub near: Vec<StepPoint>,
    /// The arc at the end of the axis.
    pub far: Vec<StepPoint>,
    /// From the first point of the one to the first point of the other.
    pub closing: Real,
    /// The sides of the ring.
    pub sides: Vec<SideSheet>,
}

/// The boundary of a cylinder patch with exact arcs, measured.
#[derive(Clone, Copy, Debug)]
pub struct ArcFaceSheet {
    /// The arc's start at the start of the axis.
    pub start_low: StepPoint,
    /// The arc's start at the end of the axis.
    pub start_high: StepPoint,
    /// The arc's end at the start of the axis.
    pub end_low: StepPoint,
    /// The arc's end at the end of the axis.
    pub end_high: StepPoint,
    /// The side along the axis at the arc's start.
    pub up: SideSheet,
    /// The side against the axis at the arc's end.
    pub down: SideSheet,
    /// The arc at the end of the axis, from its start to its end.
    pub top: ArcSheet,
    /// The arc at the start of the axis, from its end to its start.
    pub bottom: ArcSheet,
}

/// The boundary of a rounded rectangle, measured: eight points, and between
/// them in turn four sides and four corners, in the direction of travel.
#[derive(Debug)]
pub struct CapSheet {
    /// The eight points.
    pub points: Vec<StepPoint>,
    /// The four sides.
    pub sides: Vec<SideSheet>,
    /// The four corners.
    pub corners: Vec<ArcSheet>,
}

/// The boundary of a face, measured.
#[derive(Debug)]
pub enum FaceSheet {
    /// Nothing.
    Nothing,
    /// Two closed curves.
    Two {
        /// The outer one.
        start: BoundarySheet,
        /// The inner one.
        end: BoundarySheet,
    },
    /// One closed curve.
    One(BoundarySheet),
    /// A ring of straight sides, where it has directions.
    Ring(Option<RingSheet>),
    /// A cylinder cut along its axis.
    Band(BandSheet),
    /// A cylinder patch with exact arcs, where it has directions.
    ArcFace(Option<ArcFaceSheet>),
    /// A rounded rectangle.
    Cap(CapSheet),
}

/// Whether a boundary is measured as what it is.
pub open spec fn boundary_fits(boundary: FaceBoundary, sheet: BoundarySheet) -> bool {
    match (boundary, sheet) {
        (FaceBoundary::Circle(_), BoundarySheet::Circle(c)) => reversible(c.tenths),
        (FaceBoundary::Ellipse(_), BoundarySheet::Ellipse(e)) => reversible(e.tenths),
        _ => false,
    }
}

/// Whether a ring has a side for each point.
pub open spec fn ring_fits(ring: Option<RingSheet>) -> bool {
    ring is Some ==> ring->0.sides@.len() == ring->0.points@.len()
}

/// The ring of a cylinder that is cut along its axis: along the one arc and
/// back along the other; the last point goes if it is the first again.
pub open spec fn band_ring(band: BandSheet) -> Seq<StepPoint> {
    let all = band.near@ + band.far@.reverse();
    if band.closing.below(Real { bits: NO_SIDE }) {
        all.drop_last()
    } else {
        all
    }
}

/// Whether a sheet measures the boundary that a face's extent has.
pub open spec fn sheet_fits(face: Face, sheet: FaceSheet) -> bool {
    match (face.extent, sheet) {
        (FaceExtent::Cylinder { length, start, end }, FaceSheet::Two { start: s, end: e }) =>
            boundary_fits(start, s) && boundary_fits(end, e),
        (
            FaceExtent::PartialCylinder { length, arc_start_angle, arc_end_angle, arc_ref_dir },
            FaceSheet::Band(band),
        ) => band.near@.len() + band.far@.len() > 0 && band.sides@.len() == band_ring(band).len(),
        (FaceExtent::Disk { radius }, FaceSheet::One(BoundarySheet::Circle(c))) => reversible(
            c.tenths,
        ),
        (
            FaceExtent::PartialDisk { radius, start_angle, end_angle },
            FaceSheet::Ring(ring),
        ) => ring_fits(ring),
        (
            FaceExtent::TorusFillet { start_circle, end_circle },
            FaceSheet::Two { start: BoundarySheet::Circle(s), end: BoundarySheet::Circle(e) },
        ) => reversible(s.tenths) && reversible(e.tenths),
        (FaceExtent::PlanarBoundary { boundary }, FaceSheet::One(b)) => boundary_fits(boundary, b),
        (FaceExtent::Polygon { points }, FaceSheet::Ring(ring)) => {
            &&& ring_fits(ring)
            &&& ring is Some
            &&& ring->0.points@.len() == points@.len()
            &&& forall|i: int|
                0 <= i < points@.len() ==> (#[trigger] ring->0.points@[i]).at == points@[i]
        },
        (
            FaceExtent::RoundedRectCap { xmin, xmax, zmin, zmax, radius, y, plus_y },
            FaceSheet::Cap(cap),
        ) => cap.points@.len() == 8 && cap.sides@.len() == 4 && cap.corners@.len() == 4,
        (
            FaceExtent::CylinderArcFace { length, arc_start_angle, arc_end_angle, arc_ref_dir },
            FaceSheet::ArcFace(_),
        ) => true,
        (FaceExtent::Unknown, _) => true,
        (FaceExtent::Trimmed, _) => true,
        _ => false,
    }
}

impl StepState {
    /// The bound by a closed boundary.
    pub open spec fn boundary(
        self,
        boundary: FaceBoundary,
        sheet: BoundarySheet,
        outer: bool,
        orient: bool,
    ) -> StepState {
        match (boundary, sheet) {
            (FaceBoundary::Circle(c), BoundarySheet::Circle(s)) => self.circle_bound(
                c.frame.origin,
                c.frame.z,
                c.radius,
                s,
                outer,
                orient,
            ),
            (FaceBoundary::Ellipse(e), BoundarySheet::Ellipse(s)) => self.ellipse_bound(
                e,
                s,
                outer,
                orient,
            ),
            _ => self,
        }
    }
}

/// The point after point `i` of eight.
pub open spec fn eighth_after(i: int) -> int {
    if i == 7 {
        0
    } else {
        i + 1
    }
}

/// The uses of the first `k` segments of a rounded rectangle: from the first
/// on, or for a face that looks along +y from the last back.
pub open spec fn cap_uses(done: Emitted, cap: CapSheet, plus_y: bool, k: int) -> Emitted
    decreases k,
{
    if k <= 0 {
        done
    } else {
        let so_far = cap_uses(done, cap, plus_y, k - 1);
        let seg = if plus_y {
            8 - k
        } else {
            k - 1
        };
        let low = cap.points@[seg];
        let high = cap.points@[eighth_after(seg)];
        let from = if plus_y {
            high
        } else {
            low
        };
        let to = if plus_y {
            low
        } else {
            high
        };
        if seg % 2 == 1 {
            shared_arc(so_far, from, to, cap.corners@[seg / 2])
        } else {
            shared_line(so_far, from, to, cap.sides@[seg / 2])
        }
    }
}

/// The uses of the four edges of a cylinder patch: up, along the top, down, and
/// back along the bottom.
pub open spec fn arc_face_uses(done: Emitted, sheet: ArcFaceSheet) -> Emitted {
    let e1 = shared_line(done, sheet.start_low, sheet.start_high, sheet.up);
    let e2 = shared_arc(e1, sheet.start_high, sheet.end_high, sheet.top);
    let e3 = shared_line(e2, sheet.end_high, sheet.end_low, sheet.down);
    shared_arc(e3, sheet.end_low, sheet.start_low, sheet.bottom)
}

/// No bounds.
pub open spec fn no_bounds(state: StepState) -> Emitted {
    Emitted { state, ids: seq![] }
}

/// The bounds of a face: those that its extent has on the surface that it is
/// for, and none on any other.
pub open spec fn face_bounds(state: StepState, face: Face, sheet: FaceSheet) -> Emitted {
    match (face.extent, sheet) {
        (FaceExtent::Cylinder { length, start, end }, FaceSheet::Two { start: s, end: e }) =>
            if face.geom is Cylinder {
            let s1 = state.boundary(start, s, true, true);
            let s2 = s1.boundary(end, e, false, false);
            Emitted { state: s2, ids: seq![s1.last(), s2.last()] }
        } else {
            no_bounds(state)
        },
        (
            FaceExtent::PartialCylinder { length, arc_start_angle, arc_end_angle, arc_ref_dir },
            FaceSheet::Band(band),
        ) => if face.geom is Cylinder && band_ring(band).len() >= 3 {
            ring_bound(state, band_ring(band), band.sides@)
        } else {
            no_bounds(state)
        },
        (FaceExtent::Disk { radius }, FaceSheet::One(BoundarySheet::Circle(c))) => match face.geom {
            FaceGeom::Plane(plane) => {
                let s = state.circle_bound(
                    plane.frame.origin,
                    plane.frame.z,
                    radius,
                    c,
                    true,
                    true,
                );
                Emitted { state: s, ids: seq![s.last()] }
            },
            _ => no_bounds(state),
        },
        (
            FaceExtent::PartialDisk { radius, start_angle, end_angle },
            FaceSheet::Ring(Some(ring)),
        ) => if face.geom is Plane {
            ring_bound(state, ring.points@, ring.sides@)
        } else {
            no_bounds(state)
        },
        (
            FaceExtent::TorusFillet { start_circle, end_circle },
            FaceSheet::Two { start: s, end: e },
        ) => {
            let s1 = state.boundary(FaceBoundary::Circle(start_circle), s, true, true);
            let s2 = s1.boundary(FaceBoundary::Circle(end_circle), e, false, false);
            Emitted { state: s2, ids: seq![s1.last(), s2.last()] }
        },
        (FaceExtent::PlanarBoundary { boundary }, FaceSheet::One(b)) => if face.geom is Plane {
            let s = state.boundary(boundary, b, true, true);
            Emitted { state: s, ids: seq![s.last()] }
        } else {
            no_bounds(state)
        },
        (FaceExtent::Polygon { points }, FaceSheet::Ring(Some(ring))) => if points@.len() >= 3 {
            ring_bound(state, ring.points@, ring.sides@)
        } else {
            no_bounds(state)
        },
        (
            FaceExtent::RoundedRectCap { xmin, xmax, zmin, zmax, radius, y, plus_y },
            FaceSheet::Cap(cap),
        ) => finished(cap_uses(no_bounds(state), cap, plus_y, 8)),
        (
            FaceExtent::CylinderArcFace { length, arc_start_angle, arc_end_angle, arc_ref_dir },
            FaceSheet::ArcFace(Some(arc_face)),
        ) => if face.geom is Cylinder {
            finished(arc_face_uses(no_bounds(state), arc_face))
        } else {
            no_bounds(state)
        },
        _ => no_bounds(state),
    }
}

/// The bound by a closed boundary.
pub fn emit_boundary(
    ctx: &mut Ctx,
    boundary: &FaceBoundary,
    sheet: &BoundarySheet,
    outer: bool,
    orient: bool,
) -> (id: usize)
    requires
        old(ctx).wf(),
        boundary_fits(*boundary, *sheet),
    ensures
        final(ctx).wf(),
        final(ctx)@ == old(ctx)@.boundary(*boundary, *sheet, outer, orient),
        id == final(ctx).counter,
{
    match (boundary, sheet) {
        (FaceBoundary::Circle(c), BoundarySheet::Circle(s)) => emit_circle_bound(
            ctx,
            c.frame.origin,
            c.frame.z,
            c.radius,
            s,
            outer,
            orient,
        ),
        (FaceBoundary::Ellipse(e), BoundarySheet::Ellipse(s)) => emit_ellipse_bound(
            ctx,
            e,
            s,
            outer,
            orient,
        ),
        _ => ctx.counter,
    }
}

/// The bound of a cylinder that is cut along its axis.
pub fn emit_partial_cylinder_bounds(ctx: &mut Ctx, band: &BandSheet) -> (bounds: Vec<usize>)
    requires
        old(ctx).wf(),
        band.near@.len() + band.far@.len() > 0,
        band.sides@.len() == band_ring(*band).len(),
    ensures
        final(ctx).wf(),
        (Emitted { state: final(ctx)@, ids: bounds@ }) == (if band_ring(*band).len() >= 3 {
            ring_bound(old(ctx)@, band_ring(*band), band.sides@)
        } else {
            no_bounds(old(ctx)@)
        }),
{
    let mut ring: Vec<StepPoint> = Vec::new();
    let mut i: usize = 0;
    while i < band.near.len()
        invariant
            i <= band.near@.len(),
            ring@ == band.near@.take(i as int),
        decreases band.near@.len() - i,
    {
        ring.push(band.near[i]);
        assert(ring@ =~= band.near@.take(i + 1));
        i = i + 1;
    }
    assert(band.near@.take(i as int) =~= band.near@);
    let n: usize = band.far.len();
    let mut j: usize = 0;
    assert(ring@ =~= band.near@ + band.far@.reverse().take(0));
    while j < n
        invariant
            j <= n,
            n == band.far@.len(),
            ring@ == band.near@ + band.far@.reverse().take(j as int),
        decreases n - j,
    {
        ring.push(band.far[n - 1 - j]);
        assert(ring@ =~= band.near@ + band.far@.reverse().take(j + 1));
        j = j + 1;
    }
    assert(ring@ =~= band.near@ + band.far@.reverse());
    if band.closing.lt(Real { bits: NO_SIDE }) {
        let last = ring.pop();
    }
    assert(ring@ =~= band_ring(*band));
    if ring.len() < 3 {
        return Vec::new();
    }
    emit_ring_bound(ctx, &ring, &band.sides)
}

/// The bound of a cylinder patch with exact arcs.
pub fn emit_cylinder_arc_face_bounds(ctx: &mut Ctx, sheet: &ArcFaceSheet) -> (bounds: Vec<usize>)
    requires
        old(ctx).wf(),
    ensures
        final(ctx).wf(),
        (Emitted { state: final(ctx)@, ids: bounds@ }) == finished(
            arc_face_uses(no_bounds(old(ctx)@), *sheet),
        ),
{
    let mut oe_ids: Vec<usize> = Vec::new();
    push_shared_line(ctx, sheet.start_low, sheet.start_high, &sheet.up, &mut oe_ids);
    push_shared_arc(ctx, sheet.start_high, sheet.end_high, &sheet.top, &mut oe_ids);
    push_shared_line(ctx, sheet.end_high, sheet.end_low, &sheet.down, &mut oe_ids);
    push_shared_arc(ctx, sheet.end_low, sheet.start_low, &sheet.bottom, &mut oe_ids);
    finish_outer_bound(ctx, &oe_ids)
}

/// The bound of a rounded rectangle.
pub fn emit_rounded_rect_cap_bounds(ctx: &mut Ctx, cap: &CapSheet, plus_y: bool) -> (bounds: Vec<
    usize,
>)
    requires
        old(ctx).wf(),
        cap.points@.len() == 8,
        cap.sides@.len() == 4,
        cap.corners@.len() == 4,
    ensures
        final(ctx).wf(),
        (Emitted { state: final(ctx)@, ids: bounds@ }) == finished(
            cap_uses(no_bounds(old(ctx)@), *cap, plus_y, 8),
        ),
{
    let ghost before = no_bounds(ctx@);
    let mut oe_ids: Vec<usize> = Vec::new();
    let mut k: usize = 0;
    while k < 8
        invariant
            k <= 8,
            cap.points@.len() == 8,
            cap.sides@.len() == 4,
            cap.corners@.len() == 4,
            ctx.wf(),
            (Emitted { state: ctx@, ids: oe_ids@ }) == cap_uses(before, *cap, plus_y, k as int),
        decreases 8 - k,
    {
        let seg: usize = if plus_y {
            7 - k
        } else {
            k
        };
        let after: usize = if seg == 7 {
            0
        } else {
            seg + 1
        };
        let low = cap.points[seg];
        let high = cap.points[after];
        let from = if plus_y {
            high
        } else {
            low
        };
        let to = if plus_y {
            low
        } else {
            high
        };
        if seg % 2 == 1 {
            push_shared_arc(ctx, from, to, &cap.corners[seg / 2], &mut oe_ids);
        } else {
            push_shared_line(ctx, from, to, &cap.sides[seg / 2], &mut oe_ids);
        }
        k = k + 1;
    }
    finish_outer_bound(ctx, &oe_ids)
}

/// Two bounds.
fn two_bounds(outer: usize, inner: usize) -> (bounds: Vec<usize>)
    ensures
        bounds@ == seq![outer, inner],
{
    let mut bounds: Vec<usize> = Vec::new();
    bounds.push(outer);
    bounds.push(inner);
    assert(bounds@ =~= seq![outer, inner]);
    bounds
}

/// One bound.
fn one_bound(outer: usize) -> (bounds: Vec<usize>)
    ensures
        bounds@ == seq![outer],
{
    let mut bounds: Vec<usize> = Vec::new();
    bounds.push(outer);
    assert(bounds@ =~= seq![outer]);
    bounds
}

/// The bounds of a face.
pub fn emit_face_bounds(ctx: &mut Ctx, face: &Face, sheet: &FaceSheet) -> (bounds: Vec<usize>)
    requires
        old(ctx).wf(),
        sheet_fits(*face, *sheet),
    ensures
        final(ctx).wf(),
        (Emitted { state: final(ctx)@, ids: bounds@ }) == face_bounds(old(ctx)@, *face, *sheet),
{
    match (&face.extent, sheet) {
        (FaceExtent::Cylinder { length: _, start, end }, FaceSheet::Two { start: s, end: e }) => {
            match &face.geom {
                FaceGeom::Cylinder(_) => {
                    let outer: usize = emit_boundary(ctx, start, s, true, true);
                    let inner: usize = emit_boundary(ctx, end, e, false, false);
                    two_bounds(outer, inner)
                },
                _ => Vec::new(),
            }
        },
        (FaceExtent::PartialCylinder { .. }, FaceSheet::Band(band)) => match &face.geom {
            FaceGeom::Cylinder(_) => emit_partial_cylinder_bounds(ctx, band),
            _ => Vec::new(),
        },
        (FaceExtent::Disk { radius }, FaceSheet::One(BoundarySheet::Circle(c))) => {
            match &face.geom {
                FaceGeom::Plane(plane) => {
                    let bound: usize = emit_circle_bound(
                        ctx,
                        plane.frame.origin,
                        plane.frame.z,
                        *radius,
                        c,
                        true,
                        true,
                    );
                    one_bound(bound)
                },
                _ => Vec::new(),
            }
        },
        (FaceExtent::PartialDisk { .. }, FaceSheet::Ring(Some(ring))) => match &face.geom {
            FaceGeom::Plane(_) => emit_ring_bound(ctx, &ring.points, &ring.sides),
            _ => Vec::new(),
        },
        (FaceExtent::TorusFillet { start_circle, end_circle }, FaceSheet::Two { start: s, end: e })
        => {
            let outer: usize = emit_boundary(
                ctx,
                &FaceBoundary::Circle(*start_circle),
                s,
                true,
                true,
            );
            let inner: usize = emit_boundary(
                ctx,
                &FaceBoundary::Circle(*end_circle),
                e,
                false,
                false,
            );
            two_bounds(outer, inner)
        },
        (FaceExtent::PlanarBoundary { boundary }, FaceSheet::One(b)) => match &face.geom {
            FaceGeom::Plane(_) => {
                let outer: usize = emit_boundary(ctx, boundary, b, true, true);
                one_bound(outer)
            },
            _ => Vec::new(),
        },
        (FaceExtent::Polygon { points }, FaceSheet::Ring(Some(ring))) => {
            if points.len() < 3 {
                return Vec::new();
            }
            emit_ring_bound(ctx, &ring.points, &ring.sides)
        },
        (
            FaceExtent::RoundedRectCap {
                xmin: _,
                xmax: _,
                zmin: _,
                zmax: _,
                radius: _,
                y: _,
                plus_y,
            },
            FaceSheet::Cap(cap),
        ) => emit_rounded_rect_cap_bounds(ctx, cap, *plus_y),
        (FaceExtent::CylinderArcFace { .. }, FaceSheet::ArcFace(Some(arc_face))) => {
            match &face.geom {
                FaceGeom::Cylinder(_) => emit_cylinder_arc_face_bounds(ctx, arc_face),
                _ => Vec::new(),
            }
        },
        _ => Vec::new(),
    }
}

} // verus!
