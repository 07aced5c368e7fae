//! Which way each edge of an assembly is used.

use vstd::prelude::*;

use crate::assembly::{
    coedge_added, face_made, loop_made, loops_made, path_key, ring_closed, use_made, uses_made,
    with_loop, AsmState, EdgeKey, UseView,
};
use crate::assembly_laws::{consistent, keeps, lemma_use_made};
use crate::brep::Model;
use crate::entities::{CoEdgeSense, FaceExtent, FaceGeom, FaceNormal};
use crate::ids::{CoEdgeId, EdgeId, FaceId, LoopId};
use crate::step::GridKey;
use crate::watertight::{
    all_uses, edge_known, edge_under, key_of, lemma_edges_differ, lemma_tally_loop,
    lemma_tally_loops, lemma_tally_same, lemma_tally_use, lemma_tally_uses, lemma_use_effect,
    tallied, times_used, users, CurveKey,
};

verus! {

/// The co-edges along an edge that were not there before.
pub open spec fn along(before: Model, now: Model, edge: EdgeId) -> Set<CoEdgeId> {
    users(before, now, edge).filter(|c: CoEdgeId| now.coedges[c].sense == CoEdgeSense::Same)
}

/// Whether a use runs along a path from one of its ends.
pub open spec fn runs_from(u: UseView, key: EdgeKey, from: GridKey) -> bool {
    key_of(u) == CurveKey::Path(key) && u is Path && u->start.key == from
}

/// How many of some uses run along a path from one of its ends.
pub open spec fn times_from(uses: Seq<UseView>, key: EdgeKey, from: GridKey) -> nat
    decreases uses.len(),
{
    if uses.len() == 0 {
        0
    } else {
        times_from(uses.drop_last(), key, from) + (if runs_from(uses.last(), key, from) {
            1nat
        } else {
            0
        })
    }
}

/// Whether, for each path, as many co-edges run along its edge as uses run from
/// where the edge starts.
pub open spec fn oriented_right(before: Model, s: AsmState, uses: Seq<UseView>) -> bool {
    forall|k: EdgeKey, p: GridKey|
        #![trigger s.edges.dom().contains(k), s.verts.dom().contains(p)]
        s.edges.dom().contains(k) && s.verts.dom().contains(p) && s.verts[p] == s.edges[k].1
            ==> along(before, s.model, s.edges[k].0).len() == times_from(uses, k, p)
}

proof fn lemma_from_is_used(uses: Seq<UseView>, key: EdgeKey, from: GridKey)
    ensures
        times_from(uses, key, from) <= times_used(uses, CurveKey::Path(key)),
    decreases uses.len(),
{
    if uses.len() > 0 {
        lemma_from_is_used(uses.drop_last(), key, from);
    }
}

proof fn lemma_sense_use(
    before: Model,
    m: AsmState,
    n: AsmState,
    t: AsmState,
    uses: Seq<UseView>,
    u: UseView,
    edge: EdgeId,
    sense: CoEdgeSense,
    id: CoEdgeId,
    lp: LoopId,
)
    requires
        tallied(before, m, uses),
        oriented_right(before, m, uses),
        use_made(m, n, u, edge, sense),
        coedge_added(n, t, id, edge, sense, lp),
    ensures
        oriented_right(before, t, uses.push(u)),
{
    lemma_use_made(m, n, u, edge, sense);
    lemma_use_effect(m, n, u, edge, sense);
    lemma_tally_use(before, m, n, t, uses, u, edge, sense, id, lp);
    let all = uses.push(u);
    assert(all.drop_last() =~= uses);
    assert(consistent(n));
    assert(consistent(t));
    assert forall|k: EdgeKey, p: GridKey|
        #![trigger t.edges.dom().contains(k), t.verts.dom().contains(p)]
        t.edges.dom().contains(k) && t.verts.dom().contains(p) && t.verts[p]
            == t.edges[k].1 implies along(before, t.model, t.edges[k].0).len() == times_from(
        all,
        k,
        p,
    ) by {
        let e = t.edges[k].0;
        let key = CurveKey::Path(k);
        assert(edge_known(t, key) && edge_under(t, key) == e);
        let was = along(before, m.model, e);
        let now = along(before, t.model, e);
        if key_of(u) == key {
            assert(e == edge);
            assert(u is Path);
            assert(t.verts.dom().contains(u->start.key));
            assert((sense == CoEdgeSense::Same) == (u->start.key == p));
            if sense == CoEdgeSense::Same {
                assert(now =~= was.insert(id)) by {
                    assert forall|c: CoEdgeId| #[trigger] now.contains(c) <==> was.insert(
                        id,
                    ).contains(c) by {
                        if c == id {
                            assert(!before.coedges.dom().contains(id));
                        }
                    }
                }
            } else {
                assert(now =~= was);
            }
            assert(!was.contains(id));
            assert(users(before, m.model, e).finite());
            assert(was.finite());
            if edge_known(m, key) {
                assert(m.edges.dom().contains(k));
                lemma_start_is_known(m, n, k, p);
                assert(was.len() == times_from(uses, k, p));
            } else {
                assert(times_used(uses, key) == 0);
                lemma_from_is_used(uses, k, p);
                assert(was =~= Set::empty()) by {
                    assert forall|c: CoEdgeId| !was.contains(c) by {
                        if was.contains(c) {
                            assert(m.model.coedges.dom().contains(c));
                        }
                    }
                }
            }
        } else {
            assert(edge_known(m, key));
            assert(edge_known(t, key_of(u)));
            if e == edge {
                lemma_edges_differ(t, key, key_of(u));
            }
            assert(now =~= was);
            assert(m.edges.dom().contains(k));
            assert(m.edges[k] == n.edges[k]);
            lemma_start_is_known(m, n, k, p);
        }
    }
}

/// The place where an edge starts was known before.
proof fn lemma_start_is_known(m: AsmState, n: AsmState, k: EdgeKey, p: GridKey)
    requires
        consistent(m),
        consistent(n),
        keeps(m, n),
        m.edges.dom().contains(k),
        n.verts.dom().contains(p),
        n.verts[p] == n.edges[k].1,
    ensures
        m.verts.dom().contains(p),
        m.verts[p] == m.edges[k].1,
{
    assert(m.verts.dom().contains(k.lo) && m.verts.dom().contains(k.hi));
    assert(n.edges[k] == m.edges[k]);
    if m.edges[k].1 == m.verts[k.lo] {
        assert(n.verts.dom().contains(k.lo));
        assert(p == k.lo);
    } else {
        assert(n.verts.dom().contains(k.hi));
        assert(p == k.hi);
    }
}

proof fn lemma_sense_same(before: Model, s: AsmState, t: AsmState, uses: Seq<UseView>)
    requires
        oriented_right(before, s, uses),
        t.verts == s.verts,
        t.edges == s.edges,
        t.model.coedges.dom() == s.model.coedges.dom(),
        forall|c: CoEdgeId| #[trigger]
            s.model.coedges.dom().contains(c) ==> t.model.coedges[c].edge
                == s.model.coedges[c].edge && t.model.coedges[c].sense == s.model.coedges[c].sense,
    ensures
        oriented_right(before, t, uses),
{
    assert forall|k: EdgeKey, p: GridKey|
        #![trigger t.edges.dom().contains(k), t.verts.dom().contains(p)]
        t.edges.dom().contains(k) && t.verts.dom().contains(p) && t.verts[p]
            == t.edges[k].1 implies along(before, t.model, t.edges[k].0).len() == times_from(
        uses,
        k,
        p,
    ) by {
        assert(s.edges.dom().contains(k) && s.verts.dom().contains(p));
        assert(along(before, t.model, t.edges[k].0) =~= along(before, s.model, s.edges[k].0));
    }
}

proof fn lemma_sense_uses(
    before: Model,
    s: AsmState,
    t: AsmState,
    done: Seq<UseView>,
    uses: Seq<UseView>,
    lp: LoopId,
    ids: Seq<CoEdgeId>,
)
    requires
        tallied(before, s, done),
        oriented_right(before, s, done),
        uses_made(s, t, uses, lp, ids),
    ensures
        oriented_right(before, t, done + uses),
    decreases uses.len(),
{
    if uses.len() == 0 {
        assert(done + uses =~= done);
    } else {
        let (m, n, edge, sense) = choose|
            m: AsmState,
            n: AsmState,
            edge: EdgeId,
            sense: CoEdgeSense,
        |
            uses_made(s, m, uses.drop_last(), lp, ids.drop_last()) && #[trigger] use_made(
                m,
                n,
                uses.last(),
                edge,
                sense,
            ) && coedge_added(n, t, ids.last(), edge, sense, lp);
        let less = done + uses.drop_last();
        lemma_tally_uses(before, s, m, done, uses.drop_last(), lp, ids.drop_last());
        lemma_sense_uses(before, s, m, done, uses.drop_last(), lp, ids.drop_last());
        lemma_sense_use(before, m, n, t, less, uses.last(), edge, sense, ids.last(), lp);
        assert(less.push(uses.last()) =~= done + uses);
    }
}

proof fn lemma_sense_loop(
    before: Model,
    s: AsmState,
    t: AsmState,
    done: Seq<UseView>,
    uses: Seq<UseView>,
    face: FaceId,
    lp: LoopId,
)
    requires
        tallied(before, s, done),
        oriented_right(before, s, done),
        loop_made(s, t, uses, face, lp),
    ensures
        oriented_right(before, t, done + uses),
{
    let (b, ids) = choose|b: AsmState, ids: Seq<CoEdgeId>| #[trigger]
        uses_made(with_loop(s, lp, face), b, uses, lp, ids) && ring_closed(b, t, ids, lp);
    lemma_tally_same(before, s, with_loop(s, lp, face), done);
    lemma_sense_same(before, s, with_loop(s, lp, face), done);
    lemma_sense_uses(before, with_loop(s, lp, face), b, done, uses, lp, ids);
    lemma_sense_same(before, b, t, done + uses);
}

proof fn lemma_sense_loops(
    before: Model,
    s: AsmState,
    t: AsmState,
    done: Seq<UseView>,
    all: Seq<Seq<UseView>>,
    face: FaceId,
    loops: Seq<LoopId>,
)
    requires
        tallied(before, s, done),
        oriented_right(before, s, done),
        loops_made(s, t, all, face, loops),
    ensures
        oriented_right(before, t, done + all_uses(all)),
    decreases all.len(),
{
    if all.len() == 0 {
        assert(done + all_uses(all) =~= done);
    } else {
        let m = choose|m: AsmState|
            loops_made(s, m, all.drop_last(), face, loops.drop_last()) && #[trigger] loop_made(
                m,
                t,
                all.last(),
                face,
                loops.last(),
            );
        let less = done + all_uses(all.drop_last());
        lemma_tally_loops(before, s, m, done, all.drop_last(), face, loops.drop_last());
        lemma_sense_loops(before, s, m, done, all.drop_last(), face, loops.drop_last());
        lemma_sense_loop(before, m, t, less, all.last(), face, loops.last());
        assert(less + all.last() =~= done + all_uses(all));
    }
}

/// Adding a face adds its co-edges in the direction of its uses: along the edge
/// where the use sets out from where the edge starts, against it elsewhere.
pub proof fn law_uses_keep_their_direction(
    before: Model,
    s: AsmState,
    t: AsmState,
    done: Seq<UseView>,
    geom: FaceGeom,
    normal: FaceNormal,
    extent: FaceExtent,
    outer: Seq<UseView>,
    inner: Seq<Seq<UseView>>,
    face: FaceId,
)
    requires
        tallied(before, s, done),
        oriented_right(before, s, done),
        face_made(s, t, geom, normal, extent, outer, inner, face),
    ensures
        oriented_right(before, t, done + outer + all_uses(inner)),
{
    let (f, a, b, outer_loop, inner_loops) = choose|
        f: AsmState,
        a: AsmState,
        b: AsmState,
        outer_loop: LoopId,
        inner_loops: Seq<LoopId>,
    |
        f == (AsmState {
            model: Model {
                faces: s.model.faces.insert(face, f.model.faces[face]),
                ..s.model
            },
            ..s
        }) && #[trigger] loop_made(f, a, outer, face, outer_loop) && #[trigger] loops_made(
            a,
            b,
            inner,
            face,
            inner_loops,
        ) && t == (AsmState {
            model: Model { faces: s.model.faces.insert(face, t.model.faces[face]), ..b.model },
            ..b
        });
    lemma_tally_same(before, s, f, done);
    lemma_sense_same(before, s, f, done);
    lemma_tally_loop(before, f, a, done, outer, face, outer_loop);
    lemma_sense_loop(before, f, a, done, outer, face, outer_loop);
    lemma_sense_loops(before, a, b, done + outer, inner, face, inner_loops);
    lemma_sense_same(before, b, t, done + outer + all_uses(inner));
}

/// An assembly that has made nothing has nothing turned wrong.
pub proof fn lemma_nothing_is_turned(model: Model)
    ensures
        oriented_right(
            model,
            AsmState { model, verts: Map::empty(), edges: Map::empty(), circles: Map::empty() },
            Seq::empty(),
        ),
{
}

/// A path is run from one end or from the other.
proof fn lemma_from_either_end(uses: Seq<UseView>, key: EdgeKey)
    requires
        key.lo != key.hi,
    ensures
        times_from(uses, key, key.lo) + times_from(uses, key, key.hi) == times_used(
            uses,
            CurveKey::Path(key),
        ),
    decreases uses.len(),
{
    if uses.len() > 0 {
        lemma_from_either_end(uses.drop_last(), key);
        match uses.last() {
            UseView::Path { points, start, end, mid, group } => {
                let k = path_key(start.key, end.key, mid, group);
                assert(start.key == k.lo || start.key == k.hi);
            },
            UseView::Circle(_) => {},
        }
    }
}

/// Where a path is used twice, once from either end, one co-edge runs along its
/// edge and the other against it.
pub proof fn law_run_both_ways(before: Model, s: AsmState, uses: Seq<UseView>, key: EdgeKey)
    requires
        tallied(before, s, uses),
        oriented_right(before, s, uses),
        s.edges.dom().contains(key),
        key.lo != key.hi,
        times_used(uses, CurveKey::Path(key)) == 2,
        times_from(uses, key, key.lo) >= 1,
        times_from(uses, key, key.hi) >= 1,
    ensures
        users(before, s.model, s.edges[key].0).len() == 2,
        along(before, s.model, s.edges[key].0).len() == 1,
{
    lemma_from_either_end(uses, key);
    assert(edge_known(s, CurveKey::Path(key)));
    assert(s.verts.dom().contains(key.lo) && s.verts.dom().contains(key.hi));
    if s.edges[key].1 == s.verts[key.lo] {
        assert(along(before, s.model, s.edges[key].0).len() == times_from(uses, key, key.lo));
    } else {
        assert(along(before, s.model, s.edges[key].0).len() == times_from(uses, key, key.hi));
    }
}

} // verus!
