//! What holds of every assembly: one edge for each curve, run along from both
//! sides.

use vstd::prelude::*;

use crate::assembly::{
    AsmState, CircleKey, EdgeKey, UseView, circle_use_key, coedge_added, edge_added, face_made,
    loop_made, loops_made, path_key, ring_closed, sense_from, use_made, uses_made, vertex_made,
    with_loop,
};
use crate::bounds::StepPoint;
use crate::brep::Model;
use crate::entities::{CoEdgeSense, FaceExtent, FaceGeom, FaceNormal};
use crate::ids::{CoEdgeId, EdgeId, FaceId, LoopId, VertexId};
use crate::step::GridKey;

verus! {

/// What is remembered is in the model; different places have different
/// vertices, different keys have different edges, and the edge of a path starts
/// at one end of it.
pub open spec fn consistent(s: AsmState) -> bool {
    &&& forall|p: GridKey| #[trigger]
        s.verts.dom().contains(p) ==> s.model.vertices.dom().contains(s.verts[p])
    &&& forall|p: GridKey, q: GridKey|
        #![trigger s.verts.dom().contains(p), s.verts.dom().contains(q)]
        s.verts.dom().contains(p) && s.verts.dom().contains(q) && s.verts[p] == s.verts[q] ==> p
            == q
    &&& forall|k: EdgeKey| #[trigger]
        s.edges.dom().contains(k) ==> s.model.edges.dom().contains(s.edges[k].0)
            && s.verts.dom().contains(k.lo) && s.verts.dom().contains(k.hi) && (s.edges[k].1
            == s.verts[k.lo] || s.edges[k].1 == s.verts[k.hi])
    &&& forall|k: CircleKey| #[trigger]
        s.circles.dom().contains(k) ==> s.model.edges.dom().contains(s.circles[k].0)
    &&& forall|a: EdgeKey, b: EdgeKey|
        #![trigger s.edges.dom().contains(a), s.edges.dom().contains(b)]
        s.edges.dom().contains(a) && s.edges.dom().contains(b) && s.edges[a].0 == s.edges[b].0
            ==> a == b
    &&& forall|a: CircleKey, b: CircleKey|
        #![trigger s.circles.dom().contains(a), s.circles.dom().contains(b)]
        s.circles.dom().contains(a) && s.circles.dom().contains(b) && s.circles[a].0
            == s.circles[b].0 ==> a == b
    &&& forall|a: EdgeKey, b: CircleKey|
        #![trigger s.edges.dom().contains(a), s.circles.dom().contains(b)]
        s.edges.dom().contains(a) && s.circles.dom().contains(b) ==> s.edges[a].0
            != s.circles[b].0
}

/// One state comes after another: everything remembered is still remembered,
/// vertices and edges of the model are still there and the same, and what was
/// consistent still is.
pub open spec fn keeps(s: AsmState, t: AsmState) -> bool {
    &&& forall|p: GridKey| #[trigger]
        s.verts.dom().contains(p) ==> t.verts.dom().contains(p) && t.verts[p] == s.verts[p]
    &&& forall|k: EdgeKey| #[trigger]
        s.edges.dom().contains(k) ==> t.edges.dom().contains(k) && t.edges[k] == s.edges[k]
    &&& forall|k: CircleKey| #[trigger]
        s.circles.dom().contains(k) ==> t.circles.dom().contains(k) && t.circles[k]
            == s.circles[k]
    &&& forall|v: VertexId| #[trigger]
        s.model.vertices.dom().contains(v) ==> t.model.vertices.dom().contains(v)
            && t.model.vertices[v] == s.model.vertices[v]
    &&& forall|e: EdgeId| #[trigger]
        s.model.edges.dom().contains(e) ==> t.model.edges.dom().contains(e) && t.model.edges[e]
            == s.model.edges[e]
    &&& consistent(s) ==> consistent(t)
}

proof fn lemma_keeps_chain(s: AsmState, t: AsmState, u: AsmState)
    requires
        keeps(s, t),
        keeps(t, u),
    ensures
        keeps(s, u),
{
}

proof fn lemma_vertex_made(s: AsmState, t: AsmState, p: StepPoint, v: VertexId)
    requires
        vertex_made(s, t, p, v),
    ensures
        keeps(s, t),
        t.verts.dom().contains(p.key),
        t.verts[p.key] == v,
        t.edges == s.edges,
        t.circles == s.circles,
        t.model.edges == s.model.edges,
{
}

pub proof fn lemma_use_made(s: AsmState, t: AsmState, u: UseView, edge: EdgeId, sense: CoEdgeSense)
    requires
        use_made(s, t, u, edge, sense),
    ensures
        keeps(s, t),
        u matches UseView::Path { points, start, end, mid, group } ==> {
            let key = path_key(start.key, end.key, mid, group);
            &&& t.edges.dom().contains(key)
            &&& t.edges[key].0 == edge
            &&& t.verts.dom().contains(start.key)
            &&& sense == sense_from(t.edges[key].1, t.verts[start.key])
        },
        u matches UseView::Circle(c) ==> {
            let key = circle_use_key(c);
            &&& t.circles.dom().contains(key)
            &&& t.circles[key].0 == edge
            &&& t.verts.dom().contains(c.start.key)
            &&& sense == sense_from(t.circles[key].1, t.verts[c.start.key])
        },
{
    match u {
        UseView::Path { points, start, end, mid, group } => {
            let key = path_key(start.key, end.key, mid, group);
            if s.edges.dom().contains(key) {
                let v = choose|v: VertexId|
                    #[trigger] vertex_made(s, t, start, v) && edge == s.edges[key].0 && sense
                        == sense_from(s.edges[key].1, v);
                lemma_vertex_made(s, t, start, v);
            } else {
                let (a, b, v, w) = choose|a: AsmState, b: AsmState, v: VertexId, w: VertexId|
                    #[trigger] vertex_made(s, a, start, v) && #[trigger] vertex_made(a, b, end, w)
                        && edge_added(b, t, edge) && t.model.edges[edge].v_start == v && t
                        == (AsmState {
                        model: t.model,
                        edges: b.edges.insert(key, (edge, v)),
                        ..b
                    }) && sense == CoEdgeSense::Same;
                lemma_vertex_made(s, a, start, v);
                lemma_vertex_made(a, b, end, w);
                lemma_keeps_chain(s, a, b);
                assert(keeps(b, t));
                lemma_keeps_chain(s, b, t);
            }
        },
        UseView::Circle(c) => {
            let key = circle_use_key(c);
            if s.circles.dom().contains(key) {
                let v = choose|v: VertexId|
                    #[trigger] vertex_made(s, t, c.start, v) && edge == s.circles[key].0 && sense
                        == sense_from(s.circles[key].1, v);
                lemma_vertex_made(s, t, c.start, v);
            } else {
                let (a, v) = choose|a: AsmState, v: VertexId|
                    #[trigger] vertex_made(s, a, c.start, v) && edge_added(a, t, edge) && t
                        == (AsmState {
                        model: t.model,
                        circles: a.circles.insert(key, (edge, v)),
                        ..a
                    }) && sense == CoEdgeSense::Same;
                lemma_vertex_made(s, a, c.start, v);
                assert(keeps(a, t));
                lemma_keeps_chain(s, a, t);
            }
        },
    }
}

proof fn lemma_uses_made(
    s: AsmState,
    t: AsmState,
    uses: Seq<UseView>,
    lp: LoopId,
    ids: Seq<CoEdgeId>,
)
    requires
        uses_made(s, t, uses, lp, ids),
    ensures
        keeps(s, t),
    decreases uses.len(),
{
    if uses.len() > 0 {
        let (m, n, edge, sense) = choose|
            m: AsmState,
            n: AsmState,
            edge: EdgeId,
            sense: CoEdgeSense,
        |
            uses_made(s, m, uses.drop_last(), lp, ids.drop_last()) && #[trigger] use_made(
                m,
                n,
                uses.last(),
                edge,
                sense,
            ) && coedge_added(n, t, ids.last(), edge, sense, lp);
        lemma_uses_made(s, m, uses.drop_last(), lp, ids.drop_last());
        lemma_use_made(m, n, uses.last(), edge, sense);
        lemma_keeps_chain(s, m, n);
        assert(keeps(n, t));
        lemma_keeps_chain(s, n, t);
    }
}

proof fn lemma_loop_made(
    s: AsmState,
    t: AsmState,
    uses: Seq<UseView>,
    face: FaceId,
    lp: LoopId,
)
    requires
        loop_made(s, t, uses, face, lp),
    ensures
        keeps(s, t),
{
    let a = with_loop(s, lp, face);
    let (b, ids) = choose|b: AsmState, ids: Seq<CoEdgeId>| #[trigger]
        uses_made(a, b, uses, lp, ids) && ring_closed(b, t, ids, lp);
    assert(keeps(s, a));
    lemma_uses_made(a, b, uses, lp, ids);
    assert(keeps(b, t));
    lemma_keeps_chain(s, a, b);
    lemma_keeps_chain(s, b, t);
}

proof fn lemma_loops_made(
    s: AsmState,
    t: AsmState,
    all: Seq<Seq<UseView>>,
    face: FaceId,
    loops: Seq<LoopId>,
)
    requires
        loops_made(s, t, all, face, loops),
    ensures
        keeps(s, t),
    decreases all.len(),
{
    if all.len() > 0 {
        let m = choose|m: AsmState|
            loops_made(s, m, all.drop_last(), face, loops.drop_last()) && #[trigger] loop_made(
                m,
                t,
                all.last(),
                face,
                loops.last(),
            );
        lemma_loops_made(s, m, all.drop_last(), face, loops.drop_last());
        lemma_loop_made(m, t, all.last(), face, loops.last());
        lemma_keeps_chain(s, m, t);
    }
}

/// Adding a face to an assembly takes back nothing: vertices and edges stay,
/// what is remembered stays, and different curves keep different edges.
pub proof fn law_faces_keep_what_is_shared(
    s: AsmState,
    t: AsmState,
    geom: FaceGeom,
    normal: FaceNormal,
    extent: FaceExtent,
    outer: Seq<UseView>,
    inner: Seq<Seq<UseView>>,
    face: FaceId,
)
    requires
        face_made(s, t, geom, normal, extent, outer, inner, face),
    ensures
        keeps(s, t),
{
    let (f, a, b, outer_loop, inner_loops) = choose|
        f: AsmState,
        a: AsmState,
        b: AsmState,
        outer_loop: LoopId,
        inner_loops: Seq<LoopId>,
    |
        f == (AsmState {
            model: Model {
                faces: s.model.faces.insert(face, f.model.faces[face]),
                ..s.model
            },
            ..s
        }) && #[trigger] loop_made(f, a, outer, face, outer_loop) && #[trigger] loops_made(
            a,
            b,
            inner,
            face,
            inner_loops,
        ) && t == (AsmState {
            model: Model { faces: s.model.faces.insert(face, t.model.faces[face]), ..b.model },
            ..b
        });
    assert(keeps(s, f));
    lemma_loop_made(f, a, outer, face, outer_loop);
    lemma_loops_made(a, b, inner, face, inner_loops);
    assert(keeps(b, t));
    lemma_keeps_chain(s, f, a);
    lemma_keeps_chain(s, a, b);
    lemma_keeps_chain(s, b, t);
}

/// An assembler that remembers nothing is consistent with any model.
pub proof fn law_fresh_assembly_is_consistent(model: Model)
    ensures
        consistent(
            AsmState {
                model,
                verts: Map::empty(),
                edges: Map::empty(),
                circles: Map::empty(),
            },
        ),
{
}

/// Two uses of one path, whatever came between them, share one edge; and if
/// they run from opposite ends, they run along it in opposite directions.
pub proof fn law_path_used_twice(
    s1: AsmState,
    t1: AsmState,
    u1: UseView,
    edge1: EdgeId,
    sense1: CoEdgeSense,
    s2: AsmState,
    t2: AsmState,
    u2: UseView,
    edge2: EdgeId,
    sense2: CoEdgeSense,
)
    requires
        consistent(s1),
        use_made(s1, t1, u1, edge1, sense1),
        keeps(t1, s2),
        use_made(s2, t2, u2, edge2, sense2),
        u1 is Path,
        u2 is Path,
        u2->mid == u1->mid,
        u2->group == u1->group,
        u2->start.key == u1->end.key,
        u2->end.key == u1->start.key,
        u1->start.key != u1->end.key,
    ensures
        edge1 == edge2,
        sense1 != sense2,
{
    lemma_use_made(s1, t1, u1, edge1, sense1);
    lemma_use_made(s2, t2, u2, edge2, sense2);
    lemma_keeps_chain(s1, t1, s2);
    lemma_keeps_chain(s1, s2, t2);
    let key = path_key(u1->start.key, u1->end.key, u1->mid, u1->group);
    assert(key == path_key(u2->start.key, u2->end.key, u2->mid, u2->group));
    assert(t1.edges.dom().contains(key));
    assert(t2.edges[key] == t1.edges[key]);
    assert(consistent(t2));
    assert(t2.verts.dom().contains(u1->start.key));
    assert(t2.verts[u1->start.key] == t1.verts[u1->start.key]);
}

/// Two uses of one circle, whatever came between them, share one edge.
pub proof fn law_circle_used_twice(
    s1: AsmState,
    t1: AsmState,
    u1: UseView,
    edge1: EdgeId,
    sense1: CoEdgeSense,
    s2: AsmState,
    t2: AsmState,
    u2: UseView,
    edge2: EdgeId,
    sense2: CoEdgeSense,
)
    requires
        use_made(s1, t1, u1, edge1, sense1),
        keeps(t1, s2),
        use_made(s2, t2, u2, edge2, sense2),
        u1 is Circle,
        u2 is Circle,
        circle_use_key(u1->Circle_0) == circle_use_key(u2->Circle_0),
    ensures
        edge1 == edge2,
{
    lemma_use_made(s1, t1, u1, edge1, sense1);
    lemma_use_made(s2, t2, u2, edge2, sense2);
    let key = circle_use_key(u1->Circle_0);
    assert(t1.circles.dom().contains(key));
    assert(s2.circles.dom().contains(key));
}

/// Paths or circles that differ in key, such as in their group, have different
/// edges, however near they are to each other.
pub proof fn law_different_curves_have_different_edges(
    s1: AsmState,
    t1: AsmState,
    u1: UseView,
    edge1: EdgeId,
    sense1: CoEdgeSense,
    s2: AsmState,
    t2: AsmState,
    u2: UseView,
    edge2: EdgeId,
    sense2: CoEdgeSense,
)
    requires
        consistent(s1),
        use_made(s1, t1, u1, edge1, sense1),
        keeps(t1, s2),
        use_made(s2, t2, u2, edge2, sense2),
        match (u1, u2) {
            (UseView::Path { .. }, UseView::Path { .. }) => path_key(
                u1->start.key,
                u1->end.key,
                u1->mid,
                u1->group,
            ) != path_key(u2->start.key, u2->end.key, u2->mid, u2->group),
            (UseView::Circle(c1), UseView::Circle(c2)) => circle_use_key(c1) != circle_use_key(
                c2,
            ),
            _ => true,
        },
    ensures
        edge1 != edge2,
{
    lemma_use_made(s1, t1, u1, edge1, sense1);
    lemma_use_made(s2, t2, u2, edge2, sense2);
    lemma_keeps_chain(s1, t1, s2);
    lemma_keeps_chain(s1, s2, t2);
    assert(consistent(t2));
    match u1 {
        UseView::Path { points, start, end, mid, group } => {
            let k = path_key(start.key, end.key, mid, group);
            assert(t1.edges.dom().contains(k));
            assert(s2.edges.dom().contains(k));
            assert(t2.edges.dom().contains(k));
        },
        UseView::Circle(c) => {
            let k = circle_use_key(c);
            assert(t1.circles.dom().contains(k));
            assert(s2.circles.dom().contains(k));
            assert(t2.circles.dom().contains(k));
        },
    }
}

/// Everything but shells and solids.
spec fn same_solids(s: AsmState, t: AsmState) -> bool {
    t.model.shells == s.model.shells && t.model.solids == s.model.solids
}

proof fn lemma_use_keeps_solids(
    s: AsmState,
    t: AsmState,
    u: UseView,
    edge: EdgeId,
    sense: CoEdgeSense,
)
    requires
        use_made(s, t, u, edge, sense),
    ensures
        same_solids(s, t),
{
}

proof fn lemma_uses_keep_solids(
    s: AsmState,
    t: AsmState,
    uses: Seq<UseView>,
    lp: LoopId,
    ids: Seq<CoEdgeId>,
)
    requires
        uses_made(s, t, uses, lp, ids),
    ensures
        same_solids(s, t),
    decreases uses.len(),
{
    if uses.len() > 0 {
        let (m, n, edge, sense) = choose|
            m: AsmState,
            n: AsmState,
            edge: EdgeId,
            sense: CoEdgeSense,
        |
            uses_made(s, m, uses.drop_last(), lp, ids.drop_last()) && #[trigger] use_made(
                m,
                n,
                uses.last(),
                edge,
                sense,
            ) && coedge_added(n, t, ids.last(), edge, sense, lp);
        lemma_uses_keep_solids(s, m, uses.drop_last(), lp, ids.drop_last());
        lemma_use_keeps_solids(m, n, uses.last(), edge, sense);
    }
}

proof fn lemma_loop_keeps_solids(
    s: AsmState,
    t: AsmState,
    uses: Seq<UseView>,
    face: FaceId,
    lp: LoopId,
)
    requires
        loop_made(s, t, uses, face, lp),
    ensures
        same_solids(s, t),
{
    let (b, ids) = choose|b: AsmState, ids: Seq<CoEdgeId>| #[trigger]
        uses_made(with_loop(s, lp, face), b, uses, lp, ids) && ring_closed(b, t, ids, lp);
    lemma_uses_keep_solids(with_loop(s, lp, face), b, uses, lp, ids);
}

proof fn lemma_loops_keep_solids(
    s: AsmState,
    t: AsmState,
    all: Seq<Seq<UseView>>,
    face: FaceId,
    loops: Seq<LoopId>,
)
    requires
        loops_made(s, t, all, face, loops),
    ensures
        same_solids(s, t),
    decreases all.len(),
{
    if all.len() > 0 {
        let m = choose|m: AsmState|
            loops_made(s, m, all.drop_last(), face, loops.drop_last()) && #[trigger] loop_made(
                m,
                t,
                all.last(),
                face,
                loops.last(),
            );
        lemma_loops_keep_solids(s, m, all.drop_last(), face, loops.drop_last());
        lemma_loop_keeps_solids(m, t, all.last(), face, loops.last());
    }
}

/// Adding a face to an assembly leaves shells and solids alone.
pub proof fn lemma_face_keeps_solids(
    s: AsmState,
    t: AsmState,
    geom: FaceGeom,
    normal: FaceNormal,
    extent: FaceExtent,
    outer: Seq<UseView>,
    inner: Seq<Seq<UseView>>,
    face: FaceId,
)
    requires
        face_made(s, t, geom, normal, extent, outer, inner, face),
    ensures
        t.model.shells == s.model.shells,
        t.model.solids == s.model.solids,
{
    let (f, a, b, outer_loop, inner_loops) = choose|
        f: AsmState,
        a: AsmState,
        b: AsmState,
        outer_loop: LoopId,
        inner_loops: Seq<LoopId>,
    |
        f == (AsmState {
            model: Model {
                faces: s.model.faces.insert(face, f.model.faces[face]),
                ..s.model
            },
            ..s
        }) && #[trigger] loop_made(f, a, outer, face, outer_loop) && #[trigger] loops_made(
            a,
            b,
            inner,
            face,
            inner_loops,
        ) && t == (AsmState {
            model: Model { faces: s.model.faces.insert(face, t.model.faces[face]), ..b.model },
            ..b
        });
    lemma_loop_keeps_solids(f, a, outer, face, outer_loop);
    lemma_loops_keep_solids(a, b, inner, face, inner_loops);
}

} // verus!
