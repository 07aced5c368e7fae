//! What vertices, edges and faces are made of when faces are assembled.

use vstd::prelude::*;

use crate::assembly::{
    circle_use_key, coedge_added, face_made, loop_made, loops_made, path_key, points_back,
    ring_closed, sense_from, use_made, vertex_made, AsmState, CircleUse, UseView,
};
use crate::bounds::StepPoint;
use crate::brep::{last_place, linked};
use crate::entities::{CoEdge, CoEdgeSense, EdgeGeom, FaceExtent, FaceGeom, FaceNormal};
use crate::ids::{CoEdgeId, EdgeId, FaceId, LoopId, VertexId};
use crate::scalar::Real;
use crate::step::GridKey;

verus! {

/// A place has one vertex: the first time it is needed it is made at the point,
/// and from then on it is that one.
pub proof fn law_places_have_one_vertex(s: AsmState, t: AsmState, p: StepPoint, v: VertexId)
    requires
        vertex_made(s, t, p, v),
    ensures
        t.verts.dom().contains(p.key) && t.verts[p.key] == v,
        s.verts.dom().contains(p.key) ==> t == s,
        !s.verts.dom().contains(p.key) ==> !s.model.vertices.dom().contains(v)
            && t.model.vertices.dom().contains(v) && t.model.vertices[v].point == p.at,
        t.edges == s.edges && t.circles == s.circles,
        t.model.edges == s.model.edges && t.model.coedges == s.model.coedges && t.model.faces
            == s.model.faces && t.model.loops == s.model.loops,
{
}

/// A path that has no edge yet gets one through its points, from the vertex at
/// its start to the vertex at its end, over 0 to 1, and runs along it. One that
/// has an edge keeps it, and runs along it if it comes from the vertex at which
/// that starts, and against it otherwise.
pub proof fn law_paths_become_edges(
    s: AsmState,
    t: AsmState,
    u: UseView,
    edge: EdgeId,
    sense: CoEdgeSense,
)
    requires
        use_made(s, t, u, edge, sense),
        u is Path,
    ensures
        u matches UseView::Path { points, start, end, mid, group } ==> {
            let key = path_key(start.key, end.key, mid, group);
            &&& t.verts.dom().contains(start.key)
            &&& s.edges.dom().contains(key) ==> {
                &&& edge == s.edges[key].0
                &&& sense is Same <==> t.verts[start.key] == s.edges[key].1
                &&& t.edges == s.edges
                &&& t.model.edges == s.model.edges
            }
            &&& !s.edges.dom().contains(key) ==> {
                let made = t.model.edges[edge];
                &&& !s.model.edges.dom().contains(edge)
                &&& t.model.edges.dom().contains(edge)
                &&& made.geom matches EdgeGeom::Polyline(p) && p@ == points
                &&& made.v_start == t.verts[start.key]
                &&& t.verts.dom().contains(end.key) && made.v_end == t.verts[end.key]
                &&& made.t_start.bits == 0
                &&& made.t_end.bits == 0x3ff0000000000000
                &&& sense is Same
                &&& t.edges.dom().contains(key) && t.edges[key] == (edge, made.v_start)
            }
        },
{
    match u {
        UseView::Path { points, start, end, mid, group } => {
            let key = path_key(start.key, end.key, mid, group);
            if s.edges.dom().contains(key) {
                let v = choose|v: VertexId|
                    #[trigger] vertex_made(s, t, start, v) && edge == s.edges[key].0 && sense
                        == sense_from(s.edges[key].1, v);
                law_places_have_one_vertex(s, t, start, v);
            } else {
                let (a, b, v, w) = choose|a: AsmState, b: AsmState, v: VertexId, w: VertexId|
                    #[trigger] vertex_made(s, a, start, v) && #[trigger] vertex_made(a, b, end, w)
                        && crate::assembly::edge_added(b, t, edge) && {
                        let made = t.model.edges[edge];
                        &&& made.geom matches EdgeGeom::Polyline(p) && p@ == points
                        &&& made.v_start == v
                        &&& made.v_end == w
                        &&& made.t_end == Real { bits: crate::assembly::ONE }
                        &&& t == AsmState {
                            model: t.model,
                            edges: b.edges.insert(key, (edge, v)),
                            ..b
                        }
                        &&& sense == CoEdgeSense::Same
                    };
                law_places_have_one_vertex(s, a, start, v);
                law_places_have_one_vertex(a, b, end, w);
                assert(b.verts[start.key] == v);
            }
        },
        _ => {},
    }
}

/// A circle that has no edge yet gets one, from the vertex at its angle zero all
/// the way round to it, over 0 to a full turn, and runs along it. One that has an
/// edge keeps it, and runs along it if it starts at the same vertex.
pub proof fn law_circles_become_edges(
    s: AsmState,
    t: AsmState,
    c: CircleUse,
    edge: EdgeId,
    sense: CoEdgeSense,
)
    requires
        use_made(s, t, UseView::Circle(c), edge, sense),
    ensures
        ({
            let key = circle_use_key(c);
            &&& t.verts.dom().contains(c.start.key)
            &&& s.circles.dom().contains(key) ==> {
                &&& edge == s.circles[key].0
                &&& sense is Same <==> t.verts[c.start.key] == s.circles[key].1
                &&& t.circles == s.circles
                &&& t.model.edges == s.model.edges
            }
            &&& !s.circles.dom().contains(key) ==> {
                let made = t.model.edges[edge];
                &&& !s.model.edges.dom().contains(edge)
                &&& t.model.edges.dom().contains(edge)
                &&& made.geom == EdgeGeom::Circle(c.circle)
                &&& made.v_start == t.verts[c.start.key]
                &&& made.v_end == made.v_start
                &&& made.t_start.bits == 0
                &&& made.t_end.bits == 0x401921fb54442d18
                &&& sense is Same
                &&& t.circles.dom().contains(key) && t.circles[key] == (edge, made.v_start)
            }
        }),
{
    let key = circle_use_key(c);
    if s.circles.dom().contains(key) {
        let v = choose|v: VertexId|
            #[trigger] vertex_made(s, t, c.start, v) && edge == s.circles[key].0 && sense
                == sense_from(s.circles[key].1, v);
        law_places_have_one_vertex(s, t, c.start, v);
    }
}

/// Paths share their edge exactly if they have the same ends, in either order,
/// the same middle and the same group; circles if they have the same centre,
/// radius and group, and the same axis once each that points back is turned over.
pub proof fn law_curves_share_their_edge(
    start: GridKey,
    end: GridKey,
    mid: GridKey,
    group: u32,
    start2: GridKey,
    end2: GridKey,
    mid2: GridKey,
    group2: u32,
    c: CircleUse,
    d: CircleUse,
)
    ensures
        path_key(start, end, mid, group) == path_key(start2, end2, mid2, group2) <==> (start
            == start2 && end == end2 || start == end2 && end == start2) && mid == mid2 && group
            == group2,
        circle_use_key(c) == circle_use_key(d) ==> c.centre == d.centre && c.radius == d.radius
            && c.group == d.group,
        !points_back(c.circle.frame.z) && !points_back(d.circle.frame.z) ==> (circle_use_key(c)
            == circle_use_key(d) <==> c.centre == d.centre && c.radius == d.radius && c.group
            == d.group && c.axis == d.axis),
        points_back(c.circle.frame.z) && !points_back(d.circle.frame.z) && c.axis.x > i64::MIN
            && c.axis.y > i64::MIN && c.axis.z > i64::MIN ==> (circle_use_key(c) == circle_use_key(
            d,
        ) <==> c.centre == d.centre && c.radius == d.radius && c.group == d.group && d.axis.x
            == -c.axis.x && d.axis.y == -c.axis.y && d.axis.z == -c.axis.z),
{
}

/// A face that is assembled is on its surface, looks as it should, has its
/// extent, one outer loop and an inner loop for each list of uses.
pub proof fn law_faces_are_assembled(
    s: AsmState,
    t: AsmState,
    geom: FaceGeom,
    normal: FaceNormal,
    extent: FaceExtent,
    outer: Seq<crate::assembly::UseView>,
    inner: Seq<Seq<UseView>>,
    face: FaceId,
)
    requires
        face_made(s, t, geom, normal, extent, outer, inner, face),
    ensures
        !s.model.faces.dom().contains(face),
        t.model.faces.dom().contains(face),
        t.model.faces[face].geom == geom,
        t.model.faces[face].normal == normal,
        t.model.faces[face].extent == extent,
        t.model.faces[face].inner_loops@.len() == inner.len(),
        forall|f: FaceId| #[trigger]
            s.model.faces.dom().contains(f) ==> t.model.faces.dom().contains(f)
                && t.model.faces[f] == s.model.faces[f],
{
    let (f, a, b, outer_loop, inner_loops) = choose|
        f: AsmState,
        a: AsmState,
        b: AsmState,
        outer_loop: LoopId,
        inner_loops: Seq<LoopId>,
    |
        f == AsmState {
            model: crate::brep::Model {
                faces: s.model.faces.insert(face, f.model.faces[face]),
                ..s.model
            },
            ..s
        } && #[trigger] loop_made(f, a, outer, face, outer_loop) && #[trigger] loops_made(
            a,
            b,
            inner,
            face,
            inner_loops,
        ) && {
            let made = t.model.faces[face];
            &&& t == AsmState {
                model: crate::brep::Model { faces: s.model.faces.insert(face, made), ..b.model },
                ..b
            }
            &&& made.geom == geom
            &&& made.normal == normal
            &&& made.extent == extent
            &&& made.outer_loop == outer_loop
            &&& made.inner_loops@ == inner_loops
            &&& made.shell == crate::ids::ShellId::null()
        };
    assert(inner_loops.len() == inner.len()) by {
        if inner.len() == 0 {
            assert(loops_made(a, b, inner, face, inner_loops));
        }
    }
}

/// A co-edge that is added runs along its edge with its sense, in its loop.
pub proof fn law_coedges_are_added(
    s: AsmState,
    t: AsmState,
    id: CoEdgeId,
    edge: EdgeId,
    sense: CoEdgeSense,
    lp: LoopId,
)
    requires
        coedge_added(s, t, id, edge, sense, lp),
    ensures
        !s.model.coedges.dom().contains(id),
        t.model.coedges.dom().contains(id),
        t.model.coedges[id].edge == edge,
        t.model.coedges[id].sense == sense,
        t.model.coedges[id].loop_id == lp,
        t.model.edges == s.model.edges && t.model.vertices == s.model.vertices && t.verts == s.verts,
{
}

proof fn lemma_place(ordered: Seq<CoEdgeId>, upto: int, i: int)
    requires
        ordered.no_duplicates(),
        0 <= i < upto <= ordered.len(),
    ensures
        last_place(ordered, upto, ordered[i]) == i,
    decreases upto,
{
    if upto - 1 > i {
        lemma_place(ordered, upto - 1, i);
    }
}

/// In a ring of linked co-edges each leads on to the next and back to the one
/// before, the last on to the first and the first back to the last; their edges,
/// senses and loops stay.
pub proof fn law_linked_rings_lead_on_and_back(
    coedges: Map<CoEdgeId, CoEdge>,
    ordered: Seq<CoEdgeId>,
    i: int,
)
    requires
        ordered.no_duplicates(),
        0 <= i < ordered.len(),
    ensures
        ({
            let n = ordered.len() as int;
            let now = linked(coedges, ordered, n, ordered[i]);
            let was = coedges[ordered[i]];
            &&& now.next == ordered[if i == n - 1 {
                0
            } else {
                i + 1
            }]
            &&& now.prev == ordered[if i == 0 {
                n - 1
            } else {
                i - 1
            }]
            &&& now.edge == was.edge && now.sense == was.sense && now.loop_id == was.loop_id
        }),
{
    lemma_place(ordered, ordered.len() as int, i);
}

} // verus!
