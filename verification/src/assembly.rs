//! Assembly of faces whose edges are shared.
//!
//! One assembler serves a whole shell. The first face to use a curve creates
//! its edge; any later one finds the edge again, and runs along it or against
//! it by the vertex at which it starts. Points come with their places on the
//! grid that decides which are the same.

use vstd::prelude::*;

use crate::arena::{EntityKey, SLOT_LIMIT};
use crate::bounds::{StepPoint, backward, grid_before, reversible};
use crate::brep::{BRep, Model, linked};
use crate::cache::{mix, mixed, CacheKey, Table};
use crate::entities::{
    CoEdge, CoEdgeSense, Edge, EdgeGeom, Face, FaceExtent, FaceGeom, FaceNormal, Loop, Vertex,
};
use crate::geometry::{Circle3, CylSurf, Plane3, Point3, TorusSurf, UnitVec3};
use crate::ids::{CoEdgeId, EdgeId, FaceId, LoopId, ShellId, VertexId};
use crate::scalar::Real;
use crate::step::GridKey;

verus! {

/// One.
pub const ONE: u64 = 0x3ff0000000000000;

/// A full turn.
pub const TAU: u64 = 0x401921fb54442d18;

/// By what the edge of a path is found again, from either end: its ends, its
/// middle and the group that it belongs to.
#[derive(Clone, Copy, Debug, PartialEq, Eq, Structural)]
pub struct EdgeKey {
    pub lo: GridKey,
    pub hi: GridKey,
    pub mid: GridKey,
    pub group: u32,
}

impl CacheKey for EdgeKey {
    open spec fn code(self) -> u64 {
        mixed(mixed(mixed(self.lo.code(), self.hi.code()), self.mid.code()), self.group as u64)
    }

    fn digest(&self) -> (code: u64) {
        mix(mix(mix(self.lo.digest(), self.hi.digest()), self.mid.digest()), self.group as u64)
    }

    fn same(&self, other: &Self) -> (same: bool) {
        *self == *other
    }
}

/// By what the edge of a full circle is found again, from either side: its
/// centre, its axis, its radius and the group that it belongs to.
#[derive(Clone, Copy, Debug, PartialEq, Eq, Structural)]
pub struct CircleKey {
    pub centre: GridKey,
    pub axis: GridKey,
    pub radius: i64,
    pub group: u32,
}

impl CacheKey for CircleKey {
    open spec fn code(self) -> u64 {
        mixed(mixed(mixed(self.centre.code(), self.axis.code()), self.radius as u64), self.group as u64)
    }

    #[verifier::truncate]
    fn digest(&self) -> (code: u64) {
        mix(mix(mix(self.centre.digest(), self.axis.digest()), self.radius as u64), self.group as u64)
    }

    fn same(&self, other: &Self) -> (same: bool) {
        *self == *other
    }
}

/// A path that a loop runs along, measured.
#[derive(Debug)]
pub struct PathUse {
    /// The points, in the direction of travel.
    pub points: Vec<Point3>,
    /// The first of them.
    pub start: StepPoint,
    /// The last of them.
    pub end: StepPoint,
    /// The place of the path's middle.
    pub mid: GridKey,
    /// Paths of different groups are different edges.
    pub group: u32,
}

/// A full circle that a loop runs along, measured.
#[derive(Clone, Copy, Debug, PartialEq, Eq, Structural)]
pub struct CircleUse {
    /// The circle.
    pub circle: Circle3,
    /// The point at angle zero.
    pub start: StepPoint,
    /// The place of its centre.
    pub centre: GridKey,
    /// The place of its axis.
    pub axis: GridKey,
    /// Its radius on the grid.
    pub radius: i64,
    /// Circles of different groups are different edges.
    pub group: u32,
}

/// What a loop runs along.
#[derive(Debug)]
pub enum EdgeUse {
    /// A path.
    Path(PathUse),
    /// A full circle.
    Circle(CircleUse),
}

/// What a use says.
#[verifier::ext_equal]
pub enum UseView {
    Path { points: Seq<Point3>, start: StepPoint, end: StepPoint, mid: GridKey, group: u32 },
    Circle(CircleUse),
}

impl EdgeUse {
    /// What the use says.
    pub open spec fn view(&self) -> UseView {
        match *self {
            EdgeUse::Path(p) => UseView::Path {
                points: p.points@,
                start: p.start,
                end: p.end,
                mid: p.mid,
                group: p.group,
            },
            EdgeUse::Circle(c) => UseView::Circle(c),
        }
    }
}

/// What uses say.
pub open spec fn use_views(uses: Seq<EdgeUse>) -> Seq<UseView>
    decreases uses.len(),
{
    if uses.len() == 0 {
        seq![]
    } else {
        use_views(uses.drop_last()).push(uses.last()@)
    }
}

/// Whether a direction points to the negative side of its longest component.
pub open spec fn points_back(u: UnitVec3) -> bool {
    let zero = Real { bits: 0 };
    let x = u.x.unsigned();
    let y = u.y.unsigned();
    let z = u.z.unsigned();
    if y.at_most(x) && z.at_most(x) {
        u.x.below(zero)
    } else if z.at_most(y) {
        u.y.below(zero)
    } else {
        u.z.below(zero)
    }
}

/// Whether a direction points to the negative side of its longest component.
pub fn axis_flips(u: UnitVec3) -> (flips: bool)
    ensures
        flips == points_back(u),
{
    let zero = Real { bits: 0 };
    let x = u.x.abs();
    let y = u.y.abs();
    let z = u.z.abs();
    if x.ge(y) && x.ge(z) {
        u.x.lt(zero)
    } else if y.ge(z) {
        u.y.lt(zero)
    } else {
        u.z.lt(zero)
    }
}

/// The key of a path.
pub open spec fn path_key(start: GridKey, end: GridKey, mid: GridKey, group: u32) -> EdgeKey {
    EdgeKey {
        lo: if grid_before(end, start) {
            end
        } else {
            start
        },
        hi: if grid_before(end, start) {
            start
        } else {
            end
        },
        mid,
        group,
    }
}

/// The key of a circle.
pub open spec fn circle_use_key(c: CircleUse) -> CircleKey {
    CircleKey {
        centre: c.centre,
        axis: if points_back(c.circle.frame.z) {
            backward(c.axis)
        } else {
            c.axis
        },
        radius: c.radius,
        group: c.group,
    }
}

/// The state of an assembly: the model, and what is remembered.
#[verifier::ext_equal]
pub struct AsmState {
    pub model: Model,
    pub verts: Map<GridKey, VertexId>,
    pub edges: Map<EdgeKey, (EdgeId, VertexId)>,
    pub circles: Map<CircleKey, (EdgeId, VertexId)>,
}

/// The vertex at a point: the one that is there, or a new one.
pub open spec fn vertex_made(s: AsmState, t: AsmState, p: StepPoint, v: VertexId) -> bool {
    if s.verts.dom().contains(p.key) {
        t == s && v == s.verts[p.key]
    } else {
        &&& !s.model.vertices.dom().contains(v)
        &&& v != VertexId::null()
        &&& t == AsmState {
            model: Model {
                vertices: s.model.vertices.insert(v, Vertex { point: p.at }),
                ..s.model
            },
            verts: s.verts.insert(p.key, v),
            ..s
        }
    }
}

/// A new edge without co-edges.
pub open spec fn edge_added(s: AsmState, t: AsmState, edge: EdgeId) -> bool {
    &&& !s.model.edges.dom().contains(edge)
    &&& edge != EdgeId::null()
    &&& t.model == Model {
        edges: s.model.edges.insert(edge, t.model.edges[edge]),
        ..s.model
    }
    &&& t.model.edges[edge].partner is None
    &&& t.model.edges[edge].t_start == Real { bits: 0 }
}

/// Along an edge if it is started where it starts, otherwise against it.
pub open spec fn sense_from(first: VertexId, start: VertexId) -> CoEdgeSense {
    if start == first {
        CoEdgeSense::Same
    } else {
        CoEdgeSense::Opposite
    }
}

/// The edge of a use: the one that is remembered under the use's key, or a new
/// one, remembered with the vertex at which it starts.
pub open spec fn use_made(
    s: AsmState,
    t: AsmState,
    u: UseView,
    edge: EdgeId,
    sense: CoEdgeSense,
) -> bool {
    match u {
        UseView::Path { points, start, end, mid, group } => {
            let key = path_key(start.key, end.key, mid, group);
            if s.edges.dom().contains(key) {
                exists|v: VertexId|
                    #[trigger] vertex_made(s, t, start, v) && edge == s.edges[key].0 && sense
                        == sense_from(s.edges[key].1, v)
            } else {
                exists|a: AsmState, b: AsmState, v: VertexId, w: VertexId|
                    #[trigger] vertex_made(s, a, start, v) && #[trigger] vertex_made(a, b, end, w)
                        && edge_added(b, t, edge) && {
                        let made = t.model.edges[edge];
                        &&& made.geom matches EdgeGeom::Polyline(p) && p@ == points
                        &&& made.v_start == v
                        &&& made.v_end == w
                        &&& made.t_end == Real { bits: ONE }
                        &&& t == AsmState {
                            model: t.model,
                            edges: b.edges.insert(key, (edge, v)),
                            ..b
                        }
                        &&& sense == CoEdgeSense::Same
                    }
            }
        },
        UseView::Circle(c) => {
            let key = circle_use_key(c);
            if s.circles.dom().contains(key) {
                exists|v: VertexId|
                    #[trigger] vertex_made(s, t, c.start, v) && edge == s.circles[key].0 && sense
                        == sense_from(s.circles[key].1, v)
            } else {
                exists|a: AsmState, v: VertexId|
                    #[trigger] vertex_made(s, a, c.start, v) && edge_added(a, t, edge) && {
                        let made = t.model.edges[edge];
                        &&& made.geom == EdgeGeom::Circle(c.circle)
                        &&& made.v_start == v
                        &&& made.v_end == v
                        &&& made.t_end == Real { bits: TAU }
                        &&& t == AsmState {
                            model: t.model,
                            circles: a.circles.insert(key, (edge, v)),
                            ..a
                        }
                        &&& sense == CoEdgeSense::Same
                    }
            }
        },
    }
}

/// Faces under construction, and what they share.
#[derive(Debug)]
pub struct Assembler {
    verts: Table<GridKey, VertexId>,
    edges: Table<EdgeKey, (EdgeId, VertexId)>,
    circles: Table<CircleKey, (EdgeId, VertexId)>,
    faces: Vec<FaceId>,
}

impl Assembler {
    /// The state of the assembly in a model.
    pub closed spec fn state(&self, brep: &BRep) -> AsmState {
        AsmState {
            model: brep@,
            verts: self.verts@,
            edges: self.edges@,
            circles: self.circles@,
        }
    }

    /// The model in the state is the model itself.
    pub proof fn lemma_state_model(&self, brep: &BRep)
        ensures
            self.state(brep).model == brep@,
    {
    }

    /// The faces so far.
    pub closed spec fn made(&self) -> Seq<FaceId> {
        self.faces@
    }

    /// Nothing made and nothing remembered.
    pub fn new() -> (assembler: Assembler)
        ensures
            assembler.made() == Seq::<FaceId>::empty(),
            forall|brep: &BRep| #[trigger]
                assembler.state(brep) == (AsmState {
                    model: brep@,
                    verts: Map::empty(),
                    edges: Map::empty(),
                    circles: Map::empty(),
                }),
    {
        Assembler {
            verts: Table::new(),
            edges: Table::new(),
            circles: Table::new(),
            faces: Vec::new(),
        }
    }

    /// Faces produced so far.
    pub fn faces(&self) -> (faces: &Vec<FaceId>)
        ensures
            faces@ == self.made(),
    {
        &self.faces
    }

    /// The vertex at a point.
    fn vertex(&mut self, brep: &mut BRep, p: StepPoint) -> (v: VertexId)
        requires
            old(brep).wf(),
            old(brep)@.vertices.dom().len() < SLOT_LIMIT,
        ensures
            final(brep).wf(),
            vertex_made(old(self).state(old(brep)), final(self).state(final(brep)), p, v),
            final(self).made() == old(self).made(),
            final(brep)@.vertices.dom().len() <= old(brep)@.vertices.dom().len() + 1,
    {
        match self.verts.get(&p.key) {
            Some(v) => v,
            None => {
                let v = brep.add_vertex(Vertex { point: p.at });
                self.verts.insert(p.key, v);
                v
            },
        }
    }
}

/// A new co-edge without neighbours.
pub open spec fn coedge_added(
    s: AsmState,
    t: AsmState,
    id: CoEdgeId,
    edge: EdgeId,
    sense: CoEdgeSense,
    lp: LoopId,
) -> bool {
    let coedge = CoEdge {
        edge,
        sense,
        next: CoEdgeId::null(),
        prev: CoEdgeId::null(),
        loop_id: lp,
    };
    &&& !s.model.coedges.dom().contains(id)
    &&& id != CoEdgeId::null()
    &&& t == AsmState {
        model: Model { coedges: s.model.coedges.insert(id, coedge), ..s.model },
        ..s
    }
}

/// Each use in turn got an edge and a co-edge on it.
pub open spec fn uses_made(
    s: AsmState,
    t: AsmState,
    uses: Seq<UseView>,
    lp: LoopId,
    ids: Seq<CoEdgeId>,
) -> bool
    decreases uses.len(),
{
    if uses.len() == 0 {
        t == s && ids.len() == 0
    } else {
        &&& ids.len() == uses.len()
        &&& exists|m: AsmState, n: AsmState, edge: EdgeId, sense: CoEdgeSense|
            uses_made(s, m, uses.drop_last(), lp, ids.drop_last()) && #[trigger] use_made(
                m,
                n,
                uses.last(),
                edge,
                sense,
            ) && coedge_added(n, t, ids.last(), edge, sense, lp)
    }
}

/// A state with a new loop that holds no co-edges.
pub open spec fn with_loop(s: AsmState, lp: LoopId, face: FaceId) -> AsmState {
    AsmState {
        model: Model {
            loops: s.model.loops.insert(lp, Loop { start: CoEdgeId::null(), face }),
            ..s.model
        },
        ..s
    }
}

/// The co-edges of a loop became a ring, and the loop starts at the first.
pub open spec fn ring_closed(s: AsmState, t: AsmState, ids: Seq<CoEdgeId>, lp: LoopId) -> bool {
    &&& t == AsmState {
        model: Model {
            coedges: t.model.coedges,
            loops: if ids.len() == 0 {
                s.model.loops
            } else {
                s.model.loops.insert(lp, Loop { start: ids[0], ..s.model.loops[lp] })
            },
            ..s.model
        },
        ..s
    }
    &&& t.model.coedges.dom() == s.model.coedges.dom()
    &&& forall|id: CoEdgeId| #[trigger]
        s.model.coedges.dom().contains(id) ==> t.model.coedges[id] == linked(
            s.model.coedges,
            ids,
            ids.len() as int,
            id,
        )
}

/// A new loop of a face along some uses.
pub open spec fn loop_made(
    s: AsmState,
    t: AsmState,
    uses: Seq<UseView>,
    face: FaceId,
    lp: LoopId,
) -> bool {
    &&& !s.model.loops.dom().contains(lp)
    &&& lp != LoopId::null()
    &&& exists|b: AsmState, ids: Seq<CoEdgeId>| #[trigger]
        uses_made(with_loop(s, lp, face), b, uses, lp, ids) && ring_closed(b, t, ids, lp)
}

/// New loops of a face, one after the other.
pub open spec fn loops_made(
    s: AsmState,
    t: AsmState,
    all: Seq<Seq<UseView>>,
    face: FaceId,
    loops: Seq<LoopId>,
) -> bool
    decreases all.len(),
{
    if all.len() == 0 {
        t == s && loops.len() == 0
    } else {
        &&& loops.len() == all.len()
        &&& exists|m: AsmState|
            loops_made(s, m, all.drop_last(), face, loops.drop_last()) && #[trigger] loop_made(
                m,
                t,
                all.last(),
                face,
                loops.last(),
            )
    }
}

/// A new face on a surface, with an outer loop and inner loops along some uses.
pub open spec fn face_made(
    s: AsmState,
    t: AsmState,
    geom: FaceGeom,
    normal: FaceNormal,
    extent: FaceExtent,
    outer: Seq<UseView>,
    inner: Seq<Seq<UseView>>,
    face: FaceId,
) -> bool {
    &&& !s.model.faces.dom().contains(face)
    &&& face != FaceId::null()
    &&& exists|f: AsmState, a: AsmState, b: AsmState, outer_loop: LoopId, inner_loops: Seq<LoopId>|
        f == AsmState {
            model: Model {
                faces: s.model.faces.insert(face, f.model.faces[face]),
                ..s.model
            },
            ..s
        } && #[trigger] loop_made(f, a, outer, face, outer_loop) && #[trigger] loops_made(
            a,
            b,
            inner,
            face,
            inner_loops,
        ) && {
            let made = t.model.faces[face];
            &&& t == AsmState {
                model: Model { faces: s.model.faces.insert(face, made), ..b.model },
                ..b
            }
            &&& made.geom == geom
            &&& made.normal == normal
            &&& made.extent == extent
            &&& made.outer_loop == outer_loop
            &&& made.inner_loops@ == inner_loops
            &&& made.shell == ShellId::null()
        }
}

/// How many uses there are in all.
pub open spec fn use_count(all: Seq<Seq<UseView>>) -> nat
    decreases all.len(),
{
    if all.len() == 0 {
        0
    } else {
        use_count(all.drop_last()) + all.last().len()
    }
}

/// Whether a model has room for so many more uses of edges.
pub open spec fn room_for(model: Model, uses: nat) -> bool {
    &&& model.vertices.dom().len() + 2 * uses <= SLOT_LIMIT
    &&& model.edges.dom().len() + uses <= SLOT_LIMIT
    &&& model.coedges.dom().len() + uses <= SLOT_LIMIT
}

/// By how much a model may have grown for so many uses of edges.
pub open spec fn grown_by(before: Model, after: Model, uses: nat) -> bool {
    &&& after.vertices.dom().len() <= before.vertices.dom().len() + 2 * uses
    &&& after.edges.dom().len() <= before.edges.dom().len() + uses
    &&& after.coedges.dom().len() == before.coedges.dom().len() + uses
}

/// Whether a model has grown by one face with so many loops, and by no more
/// than so many uses of edges need.
pub open spec fn grown_by_face(before: Model, after: Model, uses: nat, loops: nat) -> bool {
    &&& after.vertices.dom().len() <= before.vertices.dom().len() + 2 * uses
    &&& after.edges.dom().len() <= before.edges.dom().len() + uses
    &&& after.coedges.dom().len() <= before.coedges.dom().len() + uses
    &&& after.loops.dom().len() == before.loops.dom().len() + loops
    &&& after.faces.dom().len() == before.faces.dom().len() + 1
}

/// Whether a use can be keyed.
pub open spec fn use_fits(u: UseView) -> bool {
    u matches UseView::Circle(c) ==> reversible(c.axis)
}

impl Assembler {
    /// The edge of a path, and the direction in which the path runs along it.
    pub fn shared_edge(&mut self, brep: &mut BRep, path: &PathUse) -> (result: (
        EdgeId,
        CoEdgeSense,
    ))
        requires
            old(brep).wf(),
            old(brep)@.vertices.dom().len() + 2 <= SLOT_LIMIT,
            old(brep)@.edges.dom().len() < SLOT_LIMIT,
        ensures
            final(brep).wf(),
            use_made(
                old(self).state(old(brep)),
                final(self).state(final(brep)),
                (EdgeUse::Path(*path))@,
                result.0,
                result.1,
            ),
            final(self).made() == old(self).made(),
            final(brep)@.vertices.dom().len() <= old(brep)@.vertices.dom().len() + 2,
            final(brep)@.edges.dom().len() <= old(brep)@.edges.dom().len() + 1,
            final(brep)@.coedges == old(brep)@.coedges,
            final(brep)@.loops == old(brep)@.loops,
            final(brep)@.faces == old(brep)@.faces,
    {
        let ka = path.start.key;
        let kb = path.end.key;
        let swap = kb.x < ka.x || (kb.x == ka.x && (kb.y < ka.y || (kb.y == ka.y && kb.z < ka.z)));
        let key = if swap {
            EdgeKey { lo: kb, hi: ka, mid: path.mid, group: path.group }
        } else {
            EdgeKey { lo: ka, hi: kb, mid: path.mid, group: path.group }
        };
        let ghost s = self.state(brep);
        assert(key == path_key(ka, kb, path.mid, path.group));
        match self.edges.get(&key) {
            Some(pair) => {
                let start = self.vertex(brep, path.start);
                let sense = if start == pair.1 {
                    CoEdgeSense::Same
                } else {
                    CoEdgeSense::Opposite
                };
                assert(vertex_made(s, self.state(brep), path.start, start));
                (pair.0, sense)
            },
            None => {
                let v_start = self.vertex(brep, path.start);
                let ghost a = self.state(brep);
                let v_end = self.vertex(brep, path.end);
                let ghost b = self.state(brep);
                let mut points: Vec<Point3> = Vec::new();
                let mut i: usize = 0;
                while i < path.points.len()
                    invariant
                        i <= path.points@.len(),
                        points@ == path.points@.take(i as int),
                    decreases path.points@.len() - i,
                {
                    points.push(path.points[i]);
                    assert(points@ =~= path.points@.take(i + 1));
                    i = i + 1;
                }
                assert(points@ =~= path.points@);
                let edge = brep.add_edge(
                    Edge {
                        geom: EdgeGeom::Polyline(points),
                        v_start,
                        v_end,
                        t_start: Real { bits: 0 },
                        t_end: Real { bits: ONE },
                        partner: None,
                    },
                );
                self.edges.insert(key, (edge, v_start));
                proof {
                    let t = self.state(brep);
                    assert(vertex_made(s, a, path.start, v_start));
                    assert(vertex_made(a, b, path.end, v_end));
                    assert(edge_added(b, t, edge));
                }
                (edge, CoEdgeSense::Same)
            },
        }
    }

    /// The edge of a full circle, and the direction in which it is run along.
    pub fn shared_circle(&mut self, brep: &mut BRep, c: &CircleUse) -> (result: (
        EdgeId,
        CoEdgeSense,
    ))
        requires
            old(brep).wf(),
            reversible(c.axis),
            old(brep)@.vertices.dom().len() < SLOT_LIMIT,
            old(brep)@.edges.dom().len() < SLOT_LIMIT,
        ensures
            final(brep).wf(),
            use_made(
                old(self).state(old(brep)),
                final(self).state(final(brep)),
                UseView::Circle(*c),
                result.0,
                result.1,
            ),
            final(self).made() == old(self).made(),
            final(brep)@.vertices.dom().len() <= old(brep)@.vertices.dom().len() + 1,
            final(brep)@.edges.dom().len() <= old(brep)@.edges.dom().len() + 1,
            final(brep)@.coedges == old(brep)@.coedges,
            final(brep)@.loops == old(brep)@.loops,
            final(brep)@.faces == old(brep)@.faces,
    {
        let axis = if axis_flips(c.circle.frame.z) {
            GridKey { x: -c.axis.x, y: -c.axis.y, z: -c.axis.z }
        } else {
            c.axis
        };
        let key = CircleKey { centre: c.centre, axis, radius: c.radius, group: c.group };
        let ghost s = self.state(brep);
        assert(key == circle_use_key(*c));
        match self.circles.get(&key) {
            Some(pair) => {
                let start = self.vertex(brep, c.start);
                let sense = if start == pair.1 {
                    CoEdgeSense::Same
                } else {
                    CoEdgeSense::Opposite
                };
                assert(vertex_made(s, self.state(brep), c.start, start));
                (pair.0, sense)
            },
            None => {
                let v = self.vertex(brep, c.start);
                let ghost a = self.state(brep);
                let edge = brep.add_edge(
                    Edge {
                        geom: EdgeGeom::Circle(c.circle),
                        v_start: v,
                        v_end: v,
                        t_start: Real { bits: 0 },
                        t_end: Real { bits: TAU },
                        partner: None,
                    },
                );
                self.circles.insert(key, (edge, v));
                proof {
                    let t = self.state(brep);
                    assert(vertex_made(s, a, c.start, v));
                    assert(edge_added(a, t, edge));
                }
                (edge, CoEdgeSense::Same)
            },
        }
    }

    /// Add a loop of a face along some uses.
    pub fn build_loop(&mut self, brep: &mut BRep, uses: &Vec<EdgeUse>, face: FaceId) -> (lp: LoopId)
        requires
            old(brep).wf(),
            forall|i: int| 0 <= i < uses@.len() ==> use_fits((#[trigger] uses@[i])@),
            room_for(old(brep)@, uses@.len()),
            old(brep)@.loops.dom().len() < SLOT_LIMIT,
        ensures
            final(brep).wf(),
            loop_made(
                old(self).state(old(brep)),
                final(self).state(final(brep)),
                use_views(uses@),
                face,
                lp,
            ),
            final(self).made() == old(self).made(),
            grown_by(old(brep)@, final(brep)@, uses@.len()),
            final(brep)@.loops.dom().len() == old(brep)@.loops.dom().len() + 1,
            final(brep)@.faces == old(brep)@.faces,
    {
        let ghost before = brep@;
        let ghost s = self.state(brep);
        let lp = brep.add_loop(Loop { start: CoEdgeId::default(), face });
        let ghost a = self.state(brep);
        assert(a == with_loop(s, lp, face));
        let ghost with = brep@;
        let mut ids: Vec<CoEdgeId> = Vec::new();
        let mut i: usize = 0;
        assert(use_views(uses@.take(0)) =~= seq![]);
        while i < uses.len()
            invariant
                i <= uses@.len(),
                brep.wf(),
                forall|i: int| 0 <= i < uses@.len() ==> use_fits((#[trigger] uses@[i])@),
                room_for(before, uses@.len()),
                grown_by(before, brep@, i as nat),
                brep@.loops == with.loops,
                brep@.faces == before.faces,
                ids@.len() == i,
                uses_made(a, self.state(brep), use_views(uses@.take(i as int)), lp, ids@),
                forall|j: int| 0 <= j < i ==> brep@.coedges.dom().contains(#[trigger] ids@[j]),
                self.made() == old(self).made(),
            decreases uses@.len() - i,
        {
            let ghost m = self.state(brep);
            let ghost mid = brep@;
            assert(use_fits(uses@[i as int]@));
            let (edge, sense) = match &uses[i] {
                EdgeUse::Path(path) => self.shared_edge(brep, path),
                EdgeUse::Circle(c) => self.shared_circle(brep, c),
            };
            let ghost n = self.state(brep);
            assert(use_made(m, n, uses@[i as int]@, edge, sense));
            let id = brep.add_coedge(
                CoEdge {
                    edge,
                    sense,
                    next: CoEdgeId::default(),
                    prev: CoEdgeId::default(),
                    loop_id: lp,
                },
            );
            let ghost so_far = ids@;
            ids.push(id);
            proof {
                let t = self.state(brep);
                assert(coedge_added(n, t, id, edge, sense, lp));
                let more = uses@.take(i + 1);
                assert(more.drop_last() =~= uses@.take(i as int));
                assert(ids@.drop_last() =~= so_far);
                assert(use_views(more).drop_last() =~= use_views(uses@.take(i as int)));
                assert(use_views(more).last() == uses@[i as int]@);
                lemma_use_views_len(more);
                lemma_uses_step(a, m, n, t, use_views(more), lp, ids@, edge, sense);
            }
            i = i + 1;
        }
        assert(uses@.take(i as int) =~= uses@);
        let ghost b = self.state(brep);
        brep.patch_coedge_links(ids.as_slice());
        if ids.len() > 0 {
            match brep.loops.get_mut(lp) {
                Some(held) => {
                    held.start = ids[0];
                },
                None => {},
            }
        }
        proof {
            let t = self.state(brep);
            assert(ring_closed(b, t, ids@, lp));
            assert(brep@.loops.dom() =~= with.loops.dom());
            assert(uses_made(with_loop(s, lp, face), b, use_views(uses@), lp, ids@));
            assert(loop_made(s, t, use_views(uses@), face, lp));
        }
        lp
    }
}

/// One more use.
proof fn lemma_uses_step(
    s: AsmState,
    m: AsmState,
    n: AsmState,
    t: AsmState,
    uses: Seq<UseView>,
    lp: LoopId,
    ids: Seq<CoEdgeId>,
    edge: EdgeId,
    sense: CoEdgeSense,
)
    requires
        uses.len() > 0,
        ids.len() == uses.len(),
        uses_made(s, m, uses.drop_last(), lp, ids.drop_last()),
        use_made(m, n, uses.last(), edge, sense),
        coedge_added(n, t, ids.last(), edge, sense, lp),
    ensures
        uses_made(s, t, uses, lp, ids),
{
}

/// Uses say as many things as there are.
pub proof fn lemma_use_views_len(uses: Seq<EdgeUse>)
    ensures
        use_views(uses).len() == uses.len(),
    decreases uses.len(),
{
    if uses.len() > 0 {
        lemma_use_views_len(uses.drop_last());
    }
}

/// What lists of uses say.
pub open spec fn all_use_views(all: Seq<Vec<EdgeUse>>) -> Seq<Seq<UseView>>
    decreases all.len(),
{
    if all.len() == 0 {
        seq![]
    } else {
        all_use_views(all.drop_last()).push(use_views(all.last()@))
    }
}

/// Whether uses can be keyed.
pub open spec fn all_fit(uses: Seq<EdgeUse>) -> bool {
    forall|i: int| 0 <= i < uses.len() ==> use_fits((#[trigger] uses[i])@)
}

/// One more loop.
proof fn lemma_loops_step(
    s: AsmState,
    m: AsmState,
    t: AsmState,
    all: Seq<Seq<UseView>>,
    face: FaceId,
    loops: Seq<LoopId>,
)
    requires
        all.len() > 0,
        loops.len() == all.len(),
        loops_made(s, m, all.drop_last(), face, loops.drop_last()),
        loop_made(m, t, all.last(), face, loops.last()),
    ensures
        loops_made(s, t, all, face, loops),
{
}

proof fn lemma_all_views_len(all: Seq<Vec<EdgeUse>>)
    ensures
        all_use_views(all).len() == all.len(),
    decreases all.len(),
{
    if all.len() > 0 {
        lemma_all_views_len(all.drop_last());
    }
}

proof fn lemma_use_count_take(all: Seq<Vec<EdgeUse>>, k: int)
    requires
        0 <= k <= all.len(),
    ensures
        use_count(all_use_views(all.take(k))) <= use_count(all_use_views(all)),
    decreases all.len() - k,
{
    if k < all.len() {
        lemma_use_count_take(all, k + 1);
        lemma_use_count_push(all, k);
    } else {
        assert(all.take(k) =~= all);
    }
}

proof fn lemma_use_count_push(all: Seq<Vec<EdgeUse>>, k: int)
    requires
        0 <= k < all.len(),
    ensures
        use_count(all_use_views(all.take(k + 1))) == use_count(all_use_views(all.take(k)))
            + all[k]@.len(),
        all_use_views(all.take(k + 1)).drop_last() == all_use_views(all.take(k)),
        all_use_views(all.take(k + 1)).last() == use_views(all[k]@),
        all_use_views(all.take(k + 1)).len() == k + 1,
{
    let more = all.take(k + 1);
    assert(more.drop_last() =~= all.take(k));
    assert(all_use_views(more).drop_last() =~= all_use_views(all.take(k)));
    lemma_use_views_len(all[k]@);
    lemma_all_views_len(more);
}

impl Assembler {
    /// Add a face with an outer loop and inner loops along some uses.
    pub fn add_face(
        &mut self,
        brep: &mut BRep,
        geom: FaceGeom,
        normal: FaceNormal,
        extent: FaceExtent,
        outer: &Vec<EdgeUse>,
        inner: &Vec<Vec<EdgeUse>>,
    ) -> (face: FaceId)
        requires
            old(brep).wf(),
            all_fit(outer@),
            forall|i: int| 0 <= i < inner@.len() ==> all_fit((#[trigger] inner@[i])@),
            room_for(old(brep)@, outer@.len() + use_count(all_use_views(inner@))),
            old(brep)@.faces.dom().len() < SLOT_LIMIT,
            old(brep)@.loops.dom().len() + inner@.len() < SLOT_LIMIT,
        ensures
            final(brep).wf(),
            face_made(
                old(self).state(old(brep)),
                final(self).state(final(brep)),
                geom,
                normal,
                extent,
                use_views(outer@),
                all_use_views(inner@),
                face,
            ),
            final(self).made() == old(self).made().push(face),
            grown_by(
                old(brep)@,
                final(brep)@,
                outer@.len() + use_count(all_use_views(inner@)),
            ),
            final(brep)@.loops.dom().len() == old(brep)@.loops.dom().len() + 1 + inner@.len(),
            final(brep)@.faces.dom().len() == old(brep)@.faces.dom().len() + 1,
    {
        let ghost before = brep@;
        let ghost s = self.state(brep);
        let ghost total = use_count(all_use_views(inner@));
        let face = brep.add_face(
            Face {
                geom,
                normal,
                outer_loop: LoopId::default(),
                inner_loops: Vec::new(),
                shell: ShellId::default(),
                extent,
            },
        );
        let ghost f = self.state(brep);
        let ghost with = brep@;
        assert(f.model.faces == s.model.faces.insert(face, f.model.faces[face]));
        let outer_loop = self.build_loop(brep, outer, face);
        let ghost a = self.state(brep);
        let ghost after_outer = brep@;
        let mut loops: Vec<LoopId> = Vec::new();
        let mut i: usize = 0;
        assert(inner@.take(0) =~= Seq::<Vec<EdgeUse>>::empty());
        assert(all_use_views(inner@.take(0)) =~= seq![]);
        while i < inner.len()
            invariant
                i <= inner@.len(),
                brep.wf(),
                total == use_count(all_use_views(inner@)),
                forall|i: int| 0 <= i < inner@.len() ==> all_fit((#[trigger] inner@[i])@),
                room_for(before, outer@.len() + total),
                before.loops.dom().len() + inner@.len() < SLOT_LIMIT,
                use_count(all_use_views(inner@.take(i as int))) <= total,
                grown_by(
                    before,
                    brep@,
                    outer@.len() + use_count(all_use_views(inner@.take(i as int))),
                ),
                brep@.loops.dom().len() == before.loops.dom().len() + 1 + i,
                brep@.faces == with.faces,
                loops@.len() == i,
                loops_made(
                    a,
                    self.state(brep),
                    all_use_views(inner@.take(i as int)),
                    face,
                    loops@,
                ),
                self.made() == old(self).made(),
            decreases inner@.len() - i,
        {
            let ghost m = self.state(brep);
            let ghost so_far = loops@;
            proof {
                lemma_use_count_push(inner@, i as int);
                lemma_use_count_take(inner@, i + 1);
                assert(all_fit(inner@[i as int]@));
            }
            let lp = self.build_loop(brep, &inner[i], face);
            loops.push(lp);
            proof {
                assert(loops@.drop_last() =~= so_far);
                lemma_loops_step(
                    a,
                    m,
                    self.state(brep),
                    all_use_views(inner@.take(i + 1)),
                    face,
                    loops@,
                );
            }
            i = i + 1;
        }
        assert(inner@.take(i as int) =~= inner@);
        let ghost b = self.state(brep);
        let ghost listed = loops@;
        match brep.faces.get_mut(face) {
            Some(held) => {
                held.outer_loop = outer_loop;
                held.inner_loops = loops;
            },
            None => {},
        }
        self.faces.push(face);
        proof {
            let t = self.state(brep);
            assert(t.model.faces =~= s.model.faces.insert(face, t.model.faces[face]));
            assert(brep@.faces.dom() =~= with.faces.dom());
            assert(loop_made(f, a, use_views(outer@), face, outer_loop));
            assert(loops_made(a, b, all_use_views(inner@), face, listed));
            assert(t == AsmState {
                model: Model {
                    faces: s.model.faces.insert(face, t.model.faces[face]),
                    ..b.model
                },
                ..b
            });
        }
        face
    }
}

/// 1e-9: nearer than this, the last point of a ring is the first again.
pub const SAME_POINT: u64 = 0x3e112e0be826d695;

/// A closed curve along which two faces cross, measured.
#[derive(Debug)]
pub struct Window {
    /// What sets this crossing apart from all others.
    pub id: u32,
    /// The points.
    pub points: Vec<StepPoint>,
    /// From the first point to the last.
    pub closing: Real,
    /// The places of the middles of its four pieces.
    pub mids: (GridKey, GridKey, GridKey, GridKey),
}

/// A window in a face.
#[derive(Clone, Copy, Debug, PartialEq, Eq, Structural)]
pub struct Mark {
    /// Which window.
    pub crossing: usize,
    /// Above zero if the window runs counter-clockwise as the face looks out.
    pub facing: Real,
}

/// The points of a window without a second first one.
pub open spec fn window_ring(window: Window) -> Seq<StepPoint> {
    if window.points@.len() > 1 && window.closing.below(Real { bits: SAME_POINT }) {
        window.points@.drop_last()
    } else {
        window.points@
    }
}

/// Piece `k` of four of a ring: from one quarter up to the next, both ends
/// with it.
pub open spec fn quarter(ring: Seq<StepPoint>, k: int) -> Seq<StepPoint> {
    let m = ring.len() as int;
    let from = m * k / 4;
    let to = m * (k + 1) / 4;
    Seq::new((to - from + 1) as nat, |i: int| ring[(from + i) % m])
}

/// The middle of piece `k`.
pub open spec fn window_mid(window: Window, k: int) -> GridKey {
    if k == 0 {
        window.mids.0
    } else if k == 1 {
        window.mids.1
    } else if k == 2 {
        window.mids.2
    } else {
        window.mids.3
    }
}

/// The points themselves.
pub open spec fn places(points: Seq<StepPoint>) -> Seq<Point3> {
    Seq::new(points.len(), |i: int| points[i].at)
}

/// The use of a piece.
pub open spec fn piece_use(piece: Seq<StepPoint>, mid: GridKey, group: u32) -> UseView {
    UseView::Path {
        points: places(piece),
        start: piece[0],
        end: piece.last(),
        mid,
        group,
    }
}

/// The uses of the first `n` pieces of a window, in order or all backward;
/// a piece of one point is none.
pub open spec fn window_uses(window: Window, against: bool, n: int) -> Seq<UseView>
    decreases n,
{
    if n <= 0 {
        seq![]
    } else {
        let so_far = window_uses(window, against, n - 1);
        let k = if against {
            4 - n
        } else {
            n - 1
        };
        let piece = quarter(window_ring(window), k);
        if piece.len() < 2 {
            so_far
        } else {
            so_far.push(
                piece_use(
                    if against {
                        piece.reverse()
                    } else {
                        piece
                    },
                    window_mid(window, k),
                    window.id,
                ),
            )
        }
    }
}

/// The uses of a window in a face: clockwise as the face looks out.
pub open spec fn mark_uses(crossings: Seq<Window>, mark: Mark) -> Seq<UseView> {
    window_uses(crossings[mark.crossing as int], (Real { bits: 0 }).below(mark.facing), 4)
}

/// The uses of the first `k` windows of a face.
pub open spec fn marks_uses(crossings: Seq<Window>, marks: Seq<Mark>, k: int) -> Seq<Seq<UseView>>
    decreases k,
{
    if k <= 0 {
        seq![]
    } else {
        marks_uses(crossings, marks, k - 1).push(mark_uses(crossings, marks[k - 1]))
    }
}

/// Whether a window has points, and not too many to be counted.
pub open spec fn window_fits(window: Window) -> bool {
    0 < window_ring(window).len() && window.points@.len() <= usize::MAX / 8
}

/// Whether each mark is of a window that can be cut.
pub open spec fn marks_fit(crossings: Seq<Window>, marks: Seq<Mark>) -> bool {
    forall|i: int|
        0 <= i < marks.len() ==> (#[trigger] marks[i]).crossing < crossings.len() && window_fits(
            crossings[marks[i].crossing as int],
        )
}

/// Piece `k` of four of a ring.
fn cut_quarter(ring: &Vec<StepPoint>, k: usize) -> (piece: Vec<StepPoint>)
    requires
        k < 4,
        0 < ring@.len() <= usize::MAX / 8,
    ensures
        piece@ == quarter(ring@, k as int),
        piece@.len() > 0,
{
    let m: usize = ring.len();
    assert(m * k <= usize::MAX / 2) by (nonlinear_arith)
        requires
            m <= usize::MAX / 8,
            k < 4,
    ;
    assert(m * (k + 1) <= usize::MAX / 2) by (nonlinear_arith)
        requires
            m <= usize::MAX / 8,
            k < 4,
    ;
    assert(m * (k + 1) == m * k + m) by (nonlinear_arith);
    let from: usize = m * k / 4;
    let to: usize = m * (k + 1) / 4;
    let mut piece: Vec<StepPoint> = Vec::new();
    let mut i: usize = from;
    while i <= to
        invariant
            from <= i <= to + 1,
            to <= usize::MAX / 2,
            m == ring@.len(),
            m > 0,
            piece@.len() == i - from,
            forall|j: int| 0 <= j < i - from ==> #[trigger] piece@[j] == ring@[(from + j) % (
            m as int)],
        decreases to + 1 - i,
    {
        let at: usize = i % m;
        piece.push(ring[at]);
        i = i + 1;
    }
    assert(piece@ =~= quarter(ring@, k as int));
    piece
}

/// The points of a window without a second first one.
fn open_ring(window: &Window) -> (ring: Vec<StepPoint>)
    ensures
        ring@ == window_ring(*window),
{
    let mut ring: Vec<StepPoint> = Vec::new();
    let mut i: usize = 0;
    while i < window.points.len()
        invariant
            i <= window.points@.len(),
            ring@ == window.points@.take(i as int),
        decreases window.points@.len() - i,
    {
        ring.push(window.points[i]);
        assert(ring@ =~= window.points@.take(i + 1));
        i = i + 1;
    }
    assert(ring@ =~= window.points@);
    if ring.len() > 1 && window.closing.lt(Real { bits: SAME_POINT }) {
        let last = ring.pop();
        assert(ring@ =~= window.points@.drop_last());
    }
    ring
}

/// The use of a piece, in order or backward.
fn use_piece(piece: &Vec<StepPoint>, against: bool, mid: GridKey, group: u32) -> (u: EdgeUse)
    requires
        piece@.len() > 0,
    ensures
        u@ == piece_use(
            if against {
                piece@.reverse()
            } else {
                piece@
            },
            mid,
            group,
        ),
{
    let n: usize = piece.len();
    let ghost run = if against {
        piece@.reverse()
    } else {
        piece@
    };
    let mut points: Vec<Point3> = Vec::new();
    let mut i: usize = 0;
    while i < n
        invariant
            i <= n,
            n == piece@.len(),
            run == (if against {
                piece@.reverse()
            } else {
                piece@
            }),
            points@ == places(run).take(i as int),
        decreases n - i,
    {
        let at: usize = if against {
            n - 1 - i
        } else {
            i
        };
        points.push(piece[at].at);
        assert(points@ =~= places(run).take(i + 1));
        i = i + 1;
    }
    assert(points@ =~= places(run));
    let start = if against {
        piece[n - 1]
    } else {
        piece[0]
    };
    let end = if against {
        piece[0]
    } else {
        piece[n - 1]
    };
    EdgeUse::Path(PathUse { points, start, end, mid, group })
}

/// One more use says one thing more.
proof fn lemma_use_views_push(uses: Seq<EdgeUse>, u: EdgeUse)
    ensures
        use_views(uses.push(u)) == use_views(uses).push(u@),
{
    assert(uses.push(u).drop_last() =~= uses);
}

/// The uses of a window in a face.
fn window_hole_uses(window: &Window, facing: Real) -> (uses: Vec<EdgeUse>)
    requires
        window_fits(*window),
    ensures
        use_views(uses@) == window_uses(*window, (Real { bits: 0 }).below(facing), 4),
        uses@.len() <= 4,
        all_fit(uses@),
{
    let ring = open_ring(window);
    let against = facing.gt(Real { bits: 0 });
    let mut uses: Vec<EdgeUse> = Vec::new();
    let mut n: usize = 0;
    while n < 4
        invariant
            n <= 4,
            ring@ == window_ring(*window),
            0 < ring@.len() <= usize::MAX / 8,
            uses@.len() <= n,
            all_fit(uses@),
            use_views(uses@) == window_uses(*window, against, n as int),
        decreases 4 - n,
    {
        let k: usize = if against {
            3 - n
        } else {
            n
        };
        let piece = cut_quarter(&ring, k);
        let mid = if k == 0 {
            window.mids.0
        } else if k == 1 {
            window.mids.1
        } else if k == 2 {
            window.mids.2
        } else {
            window.mids.3
        };
        if piece.len() >= 2 {
            let u = use_piece(&piece, against, mid, window.id);
            proof {
                lemma_use_views_push(uses@, u);
            }
            uses.push(u);
        }
        n = n + 1;
    }
    uses
}

/// The use of a full circle alone.
fn circle_alone(c: CircleUse) -> (uses: Vec<EdgeUse>)
    requires
        reversible(c.axis),
    ensures
        use_views(uses@) == seq![UseView::Circle(c)],
        uses@.len() == 1,
        all_fit(uses@),
{
    let mut uses: Vec<EdgeUse> = Vec::new();
    proof {
        lemma_use_views_push(uses@, EdgeUse::Circle(c));
    }
    uses.push(EdgeUse::Circle(c));
    assert(use_views(uses@) =~= seq![UseView::Circle(c)]);
    uses
}

/// The inner loops of a tube: its far circle, and its windows.
pub open spec fn tube_inner(
    far: CircleUse,
    crossings: Seq<Window>,
    marks: Seq<Mark>,
) -> Seq<Seq<UseView>> {
    seq![seq![UseView::Circle(far)]] + marks_uses(crossings, marks, marks.len() as int)
}

/// One list more says one thing more.
proof fn lemma_all_views_push(all: Seq<Vec<EdgeUse>>, uses: Vec<EdgeUse>)
    ensures
        all_use_views(all.push(uses)) == all_use_views(all).push(use_views(uses@)),
        use_count(all_use_views(all.push(uses))) == use_count(all_use_views(all)) + uses@.len(),
{
    assert(all.push(uses).drop_last() =~= all);
    assert(all_use_views(all.push(uses)).drop_last() =~= all_use_views(all));
    lemma_use_views_len(uses@);
}

/// The inner loops of a tube.
fn tube_loops(far: CircleUse, crossings: &Vec<Window>, marks: &Vec<Mark>) -> (inner: Vec<
    Vec<EdgeUse>,
>)
    requires
        reversible(far.axis),
        marks_fit(crossings@, marks@),
    ensures
        all_use_views(inner@) == tube_inner(far, crossings@, marks@),
        inner@.len() == marks@.len() + 1,
        use_count(all_use_views(inner@)) <= 1 + 4 * marks@.len(),
        forall|i: int| 0 <= i < inner@.len() ==> all_fit((#[trigger] inner@[i])@),
{
    let mut inner: Vec<Vec<EdgeUse>> = Vec::new();
    let first = circle_alone(far);
    proof {
        lemma_all_views_push(inner@, first);
        assert(all_use_views(inner@) =~= seq![]);
    }
    inner.push(first);
    assert(all_use_views(inner@) =~= seq![seq![UseView::Circle(far)]] + marks_uses(
        crossings@,
        marks@,
        0,
    ));
    let mut i: usize = 0;
    while i < marks.len()
        invariant
            i <= marks@.len(),
            marks_fit(crossings@, marks@),
            inner@.len() == i + 1,
            use_count(all_use_views(inner@)) <= 1 + 4 * i,
            forall|j: int| 0 <= j < inner@.len() ==> all_fit((#[trigger] inner@[j])@),
            all_use_views(inner@) == seq![seq![UseView::Circle(far)]] + marks_uses(
                crossings@,
                marks@,
                i as int,
            ),
        decreases marks@.len() - i,
    {
        let mark = marks[i];
        assert(window_fits(crossings@[marks@[i as int].crossing as int]));
        let uses = window_hole_uses(&crossings[mark.crossing], mark.facing);
        proof {
            lemma_all_views_push(inner@, uses);
            lemma_use_views_len(uses@);
        }
        let ghost so_far = inner@;
        inner.push(uses);
        assert(all_use_views(inner@) =~= seq![seq![UseView::Circle(far)]] + marks_uses(
            crossings@,
            marks@,
            i + 1,
        ));
        i = i + 1;
    }
    inner
}

impl Assembler {
    /// A tube between two circles, with windows and without a seam.
    pub fn emit_cylinder_face(
        &mut self,
        brep: &mut BRep,
        surf: CylSurf,
        rim_lo: CircleUse,
        rim_hi: CircleUse,
        crossings: &Vec<Window>,
        marks: &Vec<Mark>,
    ) -> (face: FaceId)
        requires
            old(brep).wf(),
            reversible(rim_lo.axis),
            reversible(rim_hi.axis),
            marks_fit(crossings@, marks@),
            room_for(old(brep)@, 2 + 4 * marks@.len()),
            old(brep)@.faces.dom().len() < SLOT_LIMIT,
            old(brep)@.loops.dom().len() + marks@.len() + 2 <= SLOT_LIMIT,
        ensures
            final(brep).wf(),
            face_made(
                old(self).state(old(brep)),
                final(self).state(final(brep)),
                FaceGeom::Cylinder(surf),
                FaceNormal::Same,
                FaceExtent::Trimmed,
                seq![UseView::Circle(rim_lo)],
                tube_inner(rim_hi, crossings@, marks@),
                face,
            ),
            final(self).made() == old(self).made().push(face),
            grown_by_face(
                old(brep)@,
                final(brep)@,
                (2 + 4 * marks@.len()) as nat,
                (2 + marks@.len()) as nat,
            ),
    {
        let outer = circle_alone(rim_lo);
        let inner = tube_loops(rim_hi, crossings, marks);
        self.add_face(
            brep,
            FaceGeom::Cylinder(surf),
            FaceNormal::Same,
            FaceExtent::Trimmed,
            &outer,
            &inner,
        )
    }

    /// A bend between two circles, without a seam.
    pub fn emit_torus_fillet(
        &mut self,
        brep: &mut BRep,
        surf: TorusSurf,
        junction_lo: CircleUse,
        junction_hi: CircleUse,
    ) -> (face: FaceId)
        requires
            old(brep).wf(),
            reversible(junction_lo.axis),
            reversible(junction_hi.axis),
            room_for(old(brep)@, 2),
            old(brep)@.faces.dom().len() < SLOT_LIMIT,
            old(brep)@.loops.dom().len() + 2 <= SLOT_LIMIT,
        ensures
            final(brep).wf(),
            face_made(
                old(self).state(old(brep)),
                final(self).state(final(brep)),
                FaceGeom::Torus(surf),
                FaceNormal::Same,
                FaceExtent::TorusFillet {
                    start_circle: junction_lo.circle,
                    end_circle: junction_hi.circle,
                },
                seq![UseView::Circle(junction_lo)],
                seq![seq![UseView::Circle(junction_hi)]],
                face,
            ),
            final(self).made() == old(self).made().push(face),
            grown_by_face(
                old(brep)@,
                final(brep)@,
                (2) as nat,
                (2) as nat,
            ),
    {
        let outer = circle_alone(junction_lo);
        let crossings: Vec<Window> = Vec::new();
        let marks: Vec<Mark> = Vec::new();
        let inner = tube_loops(junction_hi, &crossings, &marks);
        assert(tube_inner(junction_hi, crossings@, marks@) =~= seq![
            seq![UseView::Circle(junction_hi)],
        ]);
        self.add_face(
            brep,
            FaceGeom::Torus(surf),
            FaceNormal::Same,
            FaceExtent::TorusFillet {
                start_circle: junction_lo.circle,
                end_circle: junction_hi.circle,
            },
            &outer,
            &inner,
        )
    }

    /// A bend between two circles, with windows; without any it is a plain
    /// bend.
    pub fn emit_torus_fillet_windows(
        &mut self,
        brep: &mut BRep,
        surf: TorusSurf,
        junction_lo: CircleUse,
        junction_hi: CircleUse,
        crossings: &Vec<Window>,
        marks: &Vec<Mark>,
    ) -> (face: FaceId)
        requires
            old(brep).wf(),
            reversible(junction_lo.axis),
            reversible(junction_hi.axis),
            marks_fit(crossings@, marks@),
            room_for(old(brep)@, 2 + 4 * marks@.len()),
            old(brep)@.faces.dom().len() < SLOT_LIMIT,
            old(brep)@.loops.dom().len() + marks@.len() + 2 <= SLOT_LIMIT,
        ensures
            final(brep).wf(),
            face_made(
                old(self).state(old(brep)),
                final(self).state(final(brep)),
                FaceGeom::Torus(surf),
                FaceNormal::Same,
                bend_extent(junction_lo.circle, junction_hi.circle, marks@),
                seq![UseView::Circle(junction_lo)],
                tube_inner(junction_hi, crossings@, marks@),
                face,
            ),
            final(self).made() == old(self).made().push(face),
            grown_by_face(
                old(brep)@,
                final(brep)@,
                (2 + 4 * marks@.len()) as nat,
                (2 + marks@.len()) as nat,
            ),
    {
        let outer = circle_alone(junction_lo);
        let inner = tube_loops(junction_hi, crossings, marks);
        let extent = if marks.len() == 0 {
            FaceExtent::TorusFillet {
                start_circle: junction_lo.circle,
                end_circle: junction_hi.circle,
            }
        } else {
            FaceExtent::Trimmed
        };
        self.add_face(brep, FaceGeom::Torus(surf), FaceNormal::Same, extent, &outer, &inner)
    }

    /// A disk that closes the end of a tube.
    pub fn emit_disk_cap(&mut self, brep: &mut BRep, plane: Plane3, rim: CircleUse) -> (face:
        FaceId)
        requires
            old(brep).wf(),
            reversible(rim.axis),
            room_for(old(brep)@, 1),
            old(brep)@.faces.dom().len() < SLOT_LIMIT,
            old(brep)@.loops.dom().len() < SLOT_LIMIT,
        ensures
            final(brep).wf(),
            face_made(
                old(self).state(old(brep)),
                final(self).state(final(brep)),
                FaceGeom::Plane(plane),
                FaceNormal::Same,
                FaceExtent::Disk { radius: rim.circle.radius },
                seq![UseView::Circle(rim)],
                seq![],
                face,
            ),
            final(self).made() == old(self).made().push(face),
            grown_by_face(
                old(brep)@,
                final(brep)@,
                (1) as nat,
                (1) as nat,
            ),
    {
        let outer = circle_alone(rim);
        let inner: Vec<Vec<EdgeUse>> = Vec::new();
        assert(all_use_views(inner@) =~= seq![]);
        self.add_face(
            brep,
            FaceGeom::Plane(plane),
            FaceNormal::Same,
            FaceExtent::Disk { radius: rim.circle.radius },
            &outer,
            &inner,
        )
    }
}

/// The extent of a bend: the bend itself, or what its loops leave of it.
pub open spec fn bend_extent(lo: Circle3, hi: Circle3, marks: Seq<Mark>) -> FaceExtent {
    if marks.len() == 0 {
        FaceExtent::TorusFillet { start_circle: lo, end_circle: hi }
    } else {
        FaceExtent::Trimmed
    }
}

/// A closed path against a circle, measured.
#[derive(Debug)]
pub struct FitMeasure {
    /// How many points the path has.
    pub count: usize,
    /// From the first point to the last.
    pub closing: Real,
    /// The mean distance of the points from their centre.
    pub radius: Real,
    /// By how much each distance is off the mean.
    pub off_radius: Vec<Real>,
    /// By how much it may be.
    pub slack: Real,
    /// The normal of the points' plane, where it has a direction.
    pub axis: Option<UnitVec3>,
    /// How far each point is off that plane.
    pub off_plane: Vec<Real>,
}

/// Whether some number is above another.
pub open spec fn any_above(numbers: Seq<Real>, limit: Real) -> bool {
    exists|i: int| 0 <= i < numbers.len() && limit.below(#[trigger] numbers[i])
}

/// How many points a path has, without a last one that comes back to the first.
pub open spec fn points_once(count: usize, closing: Real) -> int {
    if count > 1 && closing.below(Real { bits: SAME_POINT }) {
        count - 1
    } else {
        count as int
    }
}

/// How many points a path has, without a last one that comes back to the first;
/// `closing` is the distance between these.
pub fn ring_points(count: usize, closing: Real) -> (n: usize)
    ensures
        n == points_once(count, closing),
{
    if count > 1 && closing.lt(Real { bits: SAME_POINT }) {
        count - 1
    } else {
        count
    }
}

/// Whether a path is a full circle, and if so whether its axis is to be turned
/// over: it needs enough points, a radius, all points at that distance, a
/// plane, and all points in that plane.
pub open spec fn circle_fit(m: FitMeasure) -> Option<bool> {
    let n = points_once(m.count, m.closing);
    if n < 6 || m.radius.below(Real { bits: SAME_POINT }) || any_above(m.off_radius@, m.slack)
        || m.axis is None || any_above(m.off_plane@, m.slack) {
        None
    } else {
        Some(points_back(m.axis->0))
    }
}

/// Whether some number is above another.
fn some_above(numbers: &Vec<Real>, limit: Real) -> (r: bool)
    ensures
        r == any_above(numbers@, limit),
{
    let mut i: usize = 0;
    while i < numbers.len()
        invariant
            i <= numbers@.len(),
            forall|j: int| 0 <= j < i ==> !limit.below(#[trigger] numbers@[j]),
        decreases numbers@.len() - i,
    {
        if numbers[i].gt(limit) {
            return true;
        }
        i = i + 1;
    }
    false
}

/// Whether a path is a full circle, and if so whether its axis is to be turned
/// over.
pub fn fit_circle(m: &FitMeasure) -> (fit: Option<bool>)
    ensures
        fit == circle_fit(*m),
{
    let n: usize = ring_points(m.count, m.closing);
    if n < 6 {
        return None;
    }
    if m.radius.lt(Real { bits: SAME_POINT }) {
        return None;
    }
    if some_above(&m.off_radius, m.slack) {
        return None;
    }
    match m.axis {
        None => None,
        Some(axis) => {
            if some_above(&m.off_plane, m.slack) {
                return None;
            }
            Some(axis_flips(axis))
        },
    }
}

/// One step of the boundary of a cell, measured as a path and as the circle
/// that it may be.
#[derive(Debug)]
pub struct CellStep {
    /// The path.
    pub path: PathUse,
    /// How it fits a circle.
    pub fit: FitMeasure,
    /// The circle with the axis as it is.
    pub circle: CircleUse,
    /// The circle with the axis turned over.
    pub turned: CircleUse,
}

/// What a step runs along: a circle if it is one, otherwise its path.
pub open spec fn step_use(step: CellStep) -> UseView {
    match circle_fit(step.fit) {
        Some(true) => UseView::Circle(step.turned),
        Some(false) => UseView::Circle(step.circle),
        None => (EdgeUse::Path(step.path))@,
    }
}

/// What the first `k` steps run along; a step of one point is none.
pub open spec fn step_uses(steps: Seq<CellStep>, k: int) -> Seq<UseView>
    decreases k,
{
    if k <= 0 {
        seq![]
    } else if steps[k - 1].path.points@.len() < 2 {
        step_uses(steps, k - 1)
    } else {
        step_uses(steps, k - 1).push(step_use(steps[k - 1]))
    }
}

/// What the holes of a cell run along.
pub open spec fn hole_uses(holes: Seq<Vec<CellStep>>, k: int) -> Seq<Seq<UseView>>
    decreases k,
{
    if k <= 0 {
        seq![]
    } else {
        hole_uses(holes, k - 1).push(step_uses(holes[k - 1]@, holes[k - 1]@.len() as int))
    }
}

/// Whether the circles of steps can be keyed.
pub open spec fn steps_fit(steps: Seq<CellStep>) -> bool {
    forall|i: int|
        0 <= i < steps.len() ==> reversible((#[trigger] steps[i]).circle.axis) && reversible(
            steps[i].turned.axis,
        )
}

/// What steps run along.
fn uses_of_steps(steps: Vec<CellStep>) -> (uses: Vec<EdgeUse>)
    requires
        steps_fit(steps@),
    ensures
        use_views(uses@) == step_uses(steps@, steps@.len() as int),
        uses@.len() <= steps@.len(),
        all_fit(uses@),
{
    let ghost all = steps@;
    let mut uses: Vec<EdgeUse> = Vec::new();
    for step in it: steps
        invariant
            it.seq() == all,
            steps_fit(all),
            uses@.len() <= it.index(),
            all_fit(uses@),
            use_views(uses@) == step_uses(all, it.index() as int),
    {
        let ghost k = it.index() as int;
        assert(reversible(all[k].circle.axis));
        if step.path.points.len() >= 2 {
            let u = match fit_circle(&step.fit) {
                Some(flip) => if flip {
                    EdgeUse::Circle(step.turned)
                } else {
                    EdgeUse::Circle(step.circle)
                },
                None => EdgeUse::Path(step.path),
            };
            proof {
                assert(u@ == step_use(all[k]));
                lemma_use_views_push(uses@, u);
            }
            uses.push(u);
        }
    }
    uses
}

/// How many steps holes have.
pub open spec fn step_count(holes: Seq<Vec<CellStep>>) -> nat
    decreases holes.len(),
{
    if holes.len() == 0 {
        0
    } else {
        step_count(holes.drop_last()) + holes.last()@.len()
    }
}

impl Assembler {
    /// A cell of a surface inside its loops.
    pub fn emit_cell(
        &mut self,
        brep: &mut BRep,
        geom: FaceGeom,
        normal: FaceNormal,
        outer: Vec<CellStep>,
        holes: Vec<Vec<CellStep>>,
    ) -> (face: FaceId)
        requires
            old(brep).wf(),
            steps_fit(outer@),
            forall|i: int| 0 <= i < holes@.len() ==> steps_fit((#[trigger] holes@[i])@),
            room_for(old(brep)@, outer@.len() + step_count(holes@)),
            old(brep)@.faces.dom().len() < SLOT_LIMIT,
            old(brep)@.loops.dom().len() + holes@.len() < SLOT_LIMIT,
        ensures
            final(brep).wf(),
            face_made(
                old(self).state(old(brep)),
                final(self).state(final(brep)),
                geom,
                normal,
                FaceExtent::Trimmed,
                step_uses(outer@, outer@.len() as int),
                hole_uses(holes@, holes@.len() as int),
                face,
            ),
            grown_by_face(
                old(brep)@,
                final(brep)@,
                outer@.len() + step_count(holes@),
                1 + holes@.len(),
            ),
            final(self).made() == old(self).made().push(face),
    {
        let ghost all = holes@;
        let outer_uses = uses_of_steps(outer);
        let mut inner: Vec<Vec<EdgeUse>> = Vec::new();
        assert(all.take(0) =~= Seq::<Vec<CellStep>>::empty());
        assert(all_use_views(inner@) =~= seq![]);
        for hole in it: holes
            invariant
                it.seq() == all,
                forall|i: int| 0 <= i < all.len() ==> steps_fit((#[trigger] all[i])@),
                inner@.len() == it.index(),
                all_use_views(inner@) == hole_uses(all, it.index() as int),
                use_count(all_use_views(inner@)) <= step_count(all.take(it.index() as int)),
                forall|i: int| 0 <= i < inner@.len() ==> all_fit((#[trigger] inner@[i])@),
        {
            let ghost k = it.index() as int;
            assert(steps_fit(all[k]@));
            assert(all.take(k + 1).drop_last() =~= all.take(k));
            let uses = uses_of_steps(hole);
            proof {
                lemma_all_views_push(inner@, uses);
            }
            inner.push(uses);
        }
        assert(all.take(all.len() as int) =~= all);
        self.add_face(brep, geom, normal, FaceExtent::Trimmed, &outer_uses, &inner)
    }
}

/// 1e-30: a shorter path is a point.
pub const NO_PATH: u64 = 0x39b4484bfeebc2a0;

/// Where the middle of a path is.
#[derive(Clone, Copy, Debug, PartialEq, Eq, Structural)]
pub enum MidPlace {
    /// At its first point.
    First,
    /// On a segment.
    Segment(usize),
    /// At its middle point.
    Middle,
}

/// The first segment from `i` on whose end is at least half-way.
pub open spec fn half_way(half: Real, ends: Seq<Real>, i: int) -> MidPlace
    decreases ends.len() - i,
{
    if i < 0 || i >= ends.len() {
        MidPlace::Middle
    } else if half.at_most(ends[i]) {
        MidPlace::Segment(i as usize)
    } else {
        half_way(half, ends, i + 1)
    }
}

/// Where the middle of a path is, by its length, half of that, and the length
/// up to the end of each segment.
pub fn arc_midpoint(total: Real, half: Real, ends: &Vec<Real>) -> (place: MidPlace)
    ensures
        place == (if total.below(Real { bits: NO_PATH }) {
            MidPlace::First
        } else {
            half_way(half, ends@, 0)
        }),
{
    if total.lt(Real { bits: NO_PATH }) {
        return MidPlace::First;
    }
    let mut i: usize = 0;
    while i < ends.len()
        invariant
            i <= ends@.len(),
            !total.below(Real { bits: NO_PATH }),
            half_way(half, ends@, 0) == half_way(half, ends@, i as int),
        decreases ends@.len() - i,
    {
        if ends[i].ge(half) {
            return MidPlace::Segment(i);
        }
        i = i + 1;
    }
    MidPlace::Middle
}

} // verus!
