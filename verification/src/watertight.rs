//! How often each edge of an assembly is used.

use vstd::prelude::*;

use crate::assembly::{
    circle_use_key, coedge_added, edge_added, face_made, loop_made, loops_made, path_key,
    ring_closed, use_made, uses_made, vertex_made, with_loop, AsmState, CircleKey, EdgeKey,
    UseView,
};
use crate::assembly_laws::{consistent, keeps, lemma_use_made};
use crate::brep::Model;
use crate::entities::{CoEdgeSense, FaceExtent, FaceGeom, FaceNormal};
use crate::ids::{CoEdgeId, EdgeId, FaceId, LoopId, VertexId};

verus! {

/// The key of a curve.
pub enum CurveKey {
    Path(EdgeKey),
    Circle(CircleKey),
}

/// The key of the curve that a use runs along.
pub open spec fn key_of(u: UseView) -> CurveKey {
    match u {
        UseView::Path { points, start, end, mid, group } => CurveKey::Path(
            path_key(start.key, end.key, mid, group),
        ),
        UseView::Circle(c) => CurveKey::Circle(circle_use_key(c)),
    }
}

/// Whether there is an edge for a curve.
pub open spec fn edge_known(s: AsmState, key: CurveKey) -> bool {
    match key {
        CurveKey::Path(k) => s.edges.dom().contains(k),
        CurveKey::Circle(k) => s.circles.dom().contains(k),
    }
}

/// The edge of a curve.
pub open spec fn edge_under(s: AsmState, key: CurveKey) -> EdgeId {
    match key {
        CurveKey::Path(k) => s.edges[k].0,
        CurveKey::Circle(k) => s.circles[k].0,
    }
}

/// The co-edges on an edge that were not there before.
pub open spec fn users(before: Model, now: Model, edge: EdgeId) -> Set<CoEdgeId> {
    now.coedges.dom().filter(
        |c: CoEdgeId| !before.coedges.dom().contains(c) && now.coedges[c].edge == edge,
    )
}

/// How many of some uses run along a curve.
pub open spec fn times_used(uses: Seq<UseView>, key: CurveKey) -> nat
    decreases uses.len(),
{
    if uses.len() == 0 {
        0
    } else {
        times_used(uses.drop_last(), key) + (if key_of(uses.last()) == key {
            1nat
        } else {
            0
        })
    }
}

/// Whether the co-edges made since a model was as it was are those of some
/// uses: for each curve there is one edge, with as many co-edges on it as uses
/// run along the curve, and no other edge was made.
pub open spec fn tallied(before: Model, s: AsmState, uses: Seq<UseView>) -> bool {
    &&& consistent(s)
    &&& s.model.coedges.dom().finite()
    &&& before.coedges.dom().subset_of(s.model.coedges.dom())
    &&& before.edges.dom().subset_of(s.model.edges.dom())
    &&& forall|c: CoEdgeId| #[trigger]
        s.model.coedges.dom().contains(c) && !before.coedges.dom().contains(c)
            ==> s.model.edges.dom().contains(s.model.coedges[c].edge)
    &&& forall|k: CurveKey| #[trigger]
        edge_known(s, k) ==> !before.edges.dom().contains(edge_under(s, k)) && users(
            before,
            s.model,
            edge_under(s, k),
        ).len() == times_used(uses, k)
    &&& forall|k: CurveKey| #[trigger] edge_known(s, k) <==> times_used(uses, k) > 0
    &&& forall|e: EdgeId| #[trigger]
        s.model.edges.dom().contains(e) && !before.edges.dom().contains(e) ==> exists|k: CurveKey|
            #[trigger] edge_known(s, k) && edge_under(s, k) == e
    &&& forall|k: CircleKey| #[trigger]
        s.circles.dom().contains(k) ==> s.model.edges[s.circles[k].0].geom is Circle
}

/// Making a use makes no co-edge, and no edge but that of its curve.
pub proof fn lemma_use_effect(s: AsmState, t: AsmState, u: UseView, edge: EdgeId, sense: CoEdgeSense)
    requires
        use_made(s, t, u, edge, sense),
    ensures
        t.model.coedges == s.model.coedges,
        edge_known(t, key_of(u)),
        edge_under(t, key_of(u)) == edge,
        forall|k: CurveKey| k != key_of(u) ==> #[trigger] edge_known(t, k) == edge_known(s, k) && (
        edge_known(s, k) ==> edge_under(t, k) == edge_under(s, k)),
        edge_known(s, key_of(u)) ==> edge == edge_under(s, key_of(u)) && t.model.edges
            == s.model.edges,
        !edge_known(s, key_of(u)) ==> !s.model.edges.dom().contains(edge)
            && t.model.edges.dom() == s.model.edges.dom().insert(edge),
{
    match u {
        UseView::Path { points, start, end, mid, group } => {
            let key = path_key(start.key, end.key, mid, group);
            if !s.edges.dom().contains(key) {
                let (a, b, v, w) = choose|a: AsmState, b: AsmState, v: VertexId, w: VertexId|
                    #[trigger] vertex_made(s, a, start, v) && #[trigger] vertex_made(a, b, end, w)
                        && edge_added(b, t, edge) && t == (AsmState {
                        model: t.model,
                        edges: b.edges.insert(key, (edge, v)),
                        ..b
                    });
                assert(b.model.edges == s.model.edges);
                assert(b.model.coedges == s.model.coedges);
                assert(t.model.edges.dom() =~= s.model.edges.dom().insert(edge));
            }
        },
        UseView::Circle(c) => {
            let key = circle_use_key(c);
            if !s.circles.dom().contains(key) {
                let (a, v) = choose|a: AsmState, v: VertexId|
                    #[trigger] vertex_made(s, a, c.start, v) && edge_added(a, t, edge) && t
                        == (AsmState {
                        model: t.model,
                        circles: a.circles.insert(key, (edge, v)),
                        ..a
                    });
                assert(a.model.edges == s.model.edges);
                assert(t.model.edges.dom() =~= s.model.edges.dom().insert(edge));
            }
        },
    }
}

/// Different curves have different edges.
pub proof fn lemma_edges_differ(s: AsmState, a: CurveKey, b: CurveKey)
    requires
        consistent(s),
        edge_known(s, a),
        edge_known(s, b),
        edge_under(s, a) == edge_under(s, b),
    ensures
        a == b,
{
    match (a, b) {
        (CurveKey::Path(x), CurveKey::Path(y)) => {
            assert(s.edges.dom().contains(x) && s.edges.dom().contains(y));
        },
        (CurveKey::Circle(x), CurveKey::Circle(y)) => {
            assert(s.circles.dom().contains(x) && s.circles.dom().contains(y));
        },
        (CurveKey::Path(x), CurveKey::Circle(y)) => {
            assert(s.edges.dom().contains(x) && s.circles.dom().contains(y));
        },
        (CurveKey::Circle(x), CurveKey::Path(y)) => {
            assert(s.edges.dom().contains(y) && s.circles.dom().contains(x));
        },
    }
}

/// The edge of a circle is a circle.
proof fn lemma_circles_are_round(
    s: AsmState,
    t: AsmState,
    u: UseView,
    edge: EdgeId,
    sense: CoEdgeSense,
)
    requires
        use_made(s, t, u, edge, sense),
        consistent(s),
        keeps(s, t),
        forall|k: CircleKey| #[trigger]
            s.circles.dom().contains(k) ==> s.model.edges[s.circles[k].0].geom is Circle,
    ensures
        forall|k: CircleKey| #[trigger]
            t.circles.dom().contains(k) ==> t.model.edges[t.circles[k].0].geom is Circle,
{
    assert forall|k: CircleKey| #[trigger] t.circles.dom().contains(
        k,
    ) implies t.model.edges[t.circles[k].0].geom is Circle by {
        if s.circles.dom().contains(k) {
            assert(s.model.edges.dom().contains(s.circles[k].0));
            assert(t.circles[k] == s.circles[k]);
        } else {
            lemma_use_effect(s, t, u, edge, sense);
            assert(!edge_known(s, CurveKey::Circle(k)));
            assert(edge_known(t, CurveKey::Circle(k)));
            assert(key_of(u) == CurveKey::Circle(k));
            assert(t.circles[k].0 == edge);
        }
    }
}

/// One more use, with its co-edge.
pub proof fn lemma_tally_use(
    before: Model,
    m: AsmState,
    n: AsmState,
    t: AsmState,
    uses: Seq<UseView>,
    u: UseView,
    edge: EdgeId,
    sense: CoEdgeSense,
    id: CoEdgeId,
    lp: LoopId,
)
    requires
        tallied(before, m, uses),
        use_made(m, n, u, edge, sense),
        coedge_added(n, t, id, edge, sense, lp),
    ensures
        tallied(before, t, uses.push(u)),
{
    lemma_use_made(m, n, u, edge, sense);
    lemma_use_effect(m, n, u, edge, sense);
    let all = uses.push(u);
    let key = key_of(u);
    assert(all.drop_last() =~= uses);
    lemma_circles_are_round(m, n, u, edge, sense);
    assert(consistent(n));
    assert(consistent(t));
    assert(t.model.edges == n.model.edges);
    assert forall|k: CurveKey| #[trigger] edge_known(t, k) == edge_known(n, k) && edge_under(t, k)
        == edge_under(n, k) by {}
    assert forall|c: CoEdgeId| #[trigger]
        t.model.coedges.dom().contains(c) && !before.coedges.dom().contains(
            c,
        ) implies t.model.edges.dom().contains(t.model.coedges[c].edge) by {
        if c == id {
            if edge_known(m, key) {
                lemma_known_is_there(m, key);
            }
        } else {
            assert(m.model.coedges.dom().contains(c));
        }
    }
    assert forall|k: CurveKey| #[trigger] edge_known(t, k) implies !before.edges.dom().contains(
        edge_under(t, k),
    ) && users(before, t.model, edge_under(t, k)).len() == times_used(all, k) by {
        let e = edge_under(t, k);
        let was = users(before, m.model, e);
        let now = users(before, t.model, e);
        if k == key {
            assert(now =~= was.insert(id)) by {
                assert forall|c: CoEdgeId| #[trigger] now.contains(c) <==> was.insert(id).contains(
                    c,
                ) by {
                    if c == id {
                        assert(!before.coedges.dom().contains(id));
                    }
                }
            }
            assert(!was.contains(id));
            if edge_known(m, key) {
                assert(was.len() == times_used(uses, key));
            } else {
                assert(!m.model.edges.dom().contains(edge));
                assert(was =~= Set::empty()) by {
                    assert forall|c: CoEdgeId| !was.contains(c) by {
                        if was.contains(c) {
                            assert(m.model.coedges.dom().contains(c));
                        }
                    }
                }
                assert(times_used(uses, key) == 0);
                assert(!before.edges.dom().contains(edge));
            }
            assert(was.finite());
        } else {
            assert(edge_known(m, k));
            if e == edge {
                lemma_edges_differ(t, k, key);
            }
            assert(now =~= was) by {
                assert forall|c: CoEdgeId| #[trigger] now.contains(c) <==> was.contains(c) by {}
            }
        }
    }
    assert forall|k: CurveKey| #[trigger] edge_known(t, k) <==> times_used(all, k) > 0 by {
        assert(edge_known(m, k) <==> times_used(uses, k) > 0);
    }
    assert forall|e: EdgeId| #[trigger]
        t.model.edges.dom().contains(e) && !before.edges.dom().contains(e) implies exists|
        k: CurveKey,
    | #[trigger] edge_known(t, k) && edge_under(t, k) == e by {
        if e == edge {
            assert(edge_known(t, key) && edge_under(t, key) == e);
        } else {
            assert(m.model.edges.dom().contains(e));
            let k = choose|k: CurveKey| #[trigger] edge_known(m, k) && edge_under(m, k) == e;
            assert(edge_known(t, k) && edge_under(t, k) == e);
        }
    }
}

/// The edge of a curve is in the model.
proof fn lemma_known_is_there(s: AsmState, key: CurveKey)
    requires
        consistent(s),
        edge_known(s, key),
    ensures
        s.model.edges.dom().contains(edge_under(s, key)),
{
    match key {
        CurveKey::Path(k) => {
            assert(s.edges.dom().contains(k));
        },
        CurveKey::Circle(k) => {
            assert(s.circles.dom().contains(k));
        },
    }
}

/// States that agree on edges, on what is remembered and on which co-edges are
/// on which edge have the same tally.
pub proof fn lemma_tally_same(before: Model, s: AsmState, t: AsmState, uses: Seq<UseView>)
    requires
        tallied(before, s, uses),
        t.verts == s.verts,
        t.edges == s.edges,
        t.circles == s.circles,
        t.model.vertices == s.model.vertices,
        t.model.edges == s.model.edges,
        t.model.coedges.dom() == s.model.coedges.dom(),
        forall|c: CoEdgeId| #[trigger]
            s.model.coedges.dom().contains(c) ==> t.model.coedges[c].edge
                == s.model.coedges[c].edge,
    ensures
        tallied(before, t, uses),
{
    assert(consistent(t));
    assert forall|k: CurveKey| #[trigger] edge_known(t, k) == edge_known(s, k) && edge_under(t, k)
        == edge_under(s, k) by {}
    assert forall|k: CurveKey| #[trigger] edge_known(t, k) <==> times_used(uses, k) > 0 by {
        assert(edge_known(s, k) <==> times_used(uses, k) > 0);
    }
    assert forall|k: CurveKey| #[trigger] edge_known(t, k) implies users(
        before,
        t.model,
        edge_under(t, k),
    ).len() == times_used(uses, k) by {
        assert(edge_known(s, k));
        assert(users(before, t.model, edge_under(t, k)) =~= users(
            before,
            s.model,
            edge_under(s, k),
        ));
    }
    assert forall|e: EdgeId| #[trigger]
        t.model.edges.dom().contains(e) && !before.edges.dom().contains(e) implies exists|
        k: CurveKey,
    | #[trigger] edge_known(t, k) && edge_under(t, k) == e by {
        assert(s.model.edges.dom().contains(e));
        let k = choose|k: CurveKey| #[trigger] edge_known(s, k) && edge_under(s, k) == e;
        assert(edge_known(t, k) && edge_under(t, k) == e);
    }
}

pub proof fn lemma_tally_uses(
    before: Model,
    s: AsmState,
    t: AsmState,
    done: Seq<UseView>,
    uses: Seq<UseView>,
    lp: LoopId,
    ids: Seq<CoEdgeId>,
)
    requires
        tallied(before, s, done),
        uses_made(s, t, uses, lp, ids),
    ensures
        tallied(before, t, done + uses),
    decreases uses.len(),
{
    if uses.len() == 0 {
        assert(done + uses =~= done);
    } else {
        let (m, n, edge, sense) = choose|
            m: AsmState,
            n: AsmState,
            edge: EdgeId,
            sense: CoEdgeSense,
        |
            uses_made(s, m, uses.drop_last(), lp, ids.drop_last()) && #[trigger] use_made(
                m,
                n,
                uses.last(),
                edge,
                sense,
            ) && coedge_added(n, t, ids.last(), edge, sense, lp);
        lemma_tally_uses(before, s, m, done, uses.drop_last(), lp, ids.drop_last());
        lemma_tally_use(
            before,
            m,
            n,
            t,
            done + uses.drop_last(),
            uses.last(),
            edge,
            sense,
            ids.last(),
            lp,
        );
        assert((done + uses.drop_last()).push(uses.last()) =~= done + uses);
    }
}

pub proof fn lemma_tally_loop(
    before: Model,
    s: AsmState,
    t: AsmState,
    done: Seq<UseView>,
    uses: Seq<UseView>,
    face: FaceId,
    lp: LoopId,
)
    requires
        tallied(before, s, done),
        loop_made(s, t, uses, face, lp),
    ensures
        tallied(before, t, done + uses),
{
    let (b, ids) = choose|b: AsmState, ids: Seq<CoEdgeId>| #[trigger]
        uses_made(with_loop(s, lp, face), b, uses, lp, ids) && ring_closed(b, t, ids, lp);
    lemma_tally_same(before, s, with_loop(s, lp, face), done);
    lemma_tally_uses(before, with_loop(s, lp, face), b, done, uses, lp, ids);
    lemma_tally_same(before, b, t, done + uses);
}

/// All uses of several loops, loop after loop.
pub open spec fn all_uses(all: Seq<Seq<UseView>>) -> Seq<UseView>
    decreases all.len(),
{
    if all.len() == 0 {
        Seq::empty()
    } else {
        all_uses(all.drop_last()) + all.last()
    }
}

pub proof fn lemma_tally_loops(
    before: Model,
    s: AsmState,
    t: AsmState,
    done: Seq<UseView>,
    all: Seq<Seq<UseView>>,
    face: FaceId,
    loops: Seq<LoopId>,
)
    requires
        tallied(before, s, done),
        loops_made(s, t, all, face, loops),
    ensures
        tallied(before, t, done + all_uses(all)),
    decreases all.len(),
{
    if all.len() == 0 {
        assert(done + all_uses(all) =~= done);
    } else {
        let m = choose|m: AsmState|
            loops_made(s, m, all.drop_last(), face, loops.drop_last()) && #[trigger] loop_made(
                m,
                t,
                all.last(),
                face,
                loops.last(),
            );
        lemma_tally_loops(before, s, m, done, all.drop_last(), face, loops.drop_last());
        lemma_tally_loop(
            before,
            m,
            t,
            done + all_uses(all.drop_last()),
            all.last(),
            face,
            loops.last(),
        );
        assert(done + all_uses(all.drop_last()) + all.last() =~= done + all_uses(all));
    }
}

/// Adding a face adds, for each of its uses, one co-edge on the one edge of the
/// curve that the use runs along.
pub proof fn law_uses_become_coedges(
    before: Model,
    s: AsmState,
    t: AsmState,
    done: Seq<UseView>,
    geom: FaceGeom,
    normal: FaceNormal,
    extent: FaceExtent,
    outer: Seq<UseView>,
    inner: Seq<Seq<UseView>>,
    face: FaceId,
)
    requires
        tallied(before, s, done),
        face_made(s, t, geom, normal, extent, outer, inner, face),
    ensures
        tallied(before, t, done + outer + all_uses(inner)),
{
    let (f, a, b, outer_loop, inner_loops) = choose|
        f: AsmState,
        a: AsmState,
        b: AsmState,
        outer_loop: LoopId,
        inner_loops: Seq<LoopId>,
    |
        f == (AsmState {
            model: Model {
                faces: s.model.faces.insert(face, f.model.faces[face]),
                ..s.model
            },
            ..s
        }) && #[trigger] loop_made(f, a, outer, face, outer_loop) && #[trigger] loops_made(
            a,
            b,
            inner,
            face,
            inner_loops,
        ) && t == (AsmState {
            model: Model { faces: s.model.faces.insert(face, t.model.faces[face]), ..b.model },
            ..b
        });
    lemma_tally_same(before, s, f, done);
    lemma_tally_loop(before, f, a, done, outer, face, outer_loop);
    lemma_tally_loops(before, a, b, done + outer, inner, face, inner_loops);
    lemma_tally_same(before, b, t, done + outer + all_uses(inner));
}

/// An assembly that has made nothing has a tally of nothing.
pub proof fn law_nothing_is_made_at_first(model: Model)
    requires
        model.coedges.dom().finite(),
    ensures
        tallied(
            model,
            AsmState { model, verts: Map::empty(), edges: Map::empty(), circles: Map::empty() },
            Seq::empty(),
        ),
{
    let s = AsmState { model, verts: Map::empty(), edges: Map::empty(), circles: Map::empty() };
    assert forall|k: CurveKey| !#[trigger] edge_known(s, k) by {}
}

/// If every curve that is used is used twice, every edge that was made has
/// exactly two co-edges.
pub proof fn law_used_twice_is_closed(before: Model, s: AsmState, uses: Seq<UseView>, edge: EdgeId)
    requires
        tallied(before, s, uses),
        forall|i: int|
            0 <= i < uses.len() ==> times_used(uses, key_of(#[trigger] uses[i])) == 2,
        s.model.edges.dom().contains(edge),
        !before.edges.dom().contains(edge),
    ensures
        users(before, s.model, edge).len() == 2,
{
    let k = choose|k: CurveKey| #[trigger] edge_known(s, k) && edge_under(s, k) == edge;
    assert(times_used(uses, k) > 0);
    lemma_some_use(uses, k);
    let i = choose|i: int| 0 <= i < uses.len() && key_of(#[trigger] uses[i]) == k;
    assert(times_used(uses, key_of(uses[i])) == 2);
}

pub proof fn lemma_some_use(uses: Seq<UseView>, key: CurveKey)
    requires
        times_used(uses, key) > 0,
    ensures
        exists|i: int| 0 <= i < uses.len() && key_of(#[trigger] uses[i]) == key,
    decreases uses.len(),
{
    if key_of(uses.last()) == key {
        assert(key_of(uses[uses.len() - 1]) == key);
    } else {
        lemma_some_use(uses.drop_last(), key);
        let i = choose|i: int|
            0 <= i < uses.drop_last().len() && key_of(#[trigger] uses.drop_last()[i]) == key;
        assert(key_of(uses[i]) == key);
    }
}

} // verus!
