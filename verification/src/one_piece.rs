//! A fused scaffold hangs together: from each of its faces the others can be
//! reached over edges that they share.

use vstd::prelude::*;

use crate::assembly::{
    coedge_added, face_made, loop_made, loops_made, mark_uses, marks_uses, ring_closed, tube_inner,
    use_made, uses_made, window_ring, with_loop, AsmState, CircleUse, Mark, UseView, Window,
};
use crate::brep::Model;
use crate::closed_scaffold::{
    crossings_sound, has_piece, lemma_log_holds, lemma_marks_hold, lemma_window_holds, piece_key,
    piece_run,
};
use crate::entities::{CoEdgeSense, FaceNormal};
use crate::ids::{CoEdgeId, EdgeId, FaceId, LoopId, ShellId, SolidId};
use crate::scaffold::{
    cap_face, crossings_fit, elbow_face, elbow_faces, faces_made, fresh, group_in, group_out,
    grouped, imprints, law_windows_are_cut_twice, leg_base, leg_face, leg_faces, marks_of,
    scaffold_faces, scaffold_fused, window_of, windows_of, AsmFace, Crossing, FilamentSheet,
    Imprint, Member, Nearness,
};
use crate::scaffold_laws::{counted, joined_up, present};
use crate::scalar::Real;
use crate::solid::assembled;
use crate::watertight::{all_uses, edge_known, edge_under, key_of, lemma_use_effect, CurveKey};

verus! {

// ── Faces that share an edge ────────────────────────────────────────────────

/// Whether an edge bounds a face: one of the face's loops has a co-edge on it.
pub open spec fn bounds_face(model: Model, face: FaceId, edge: EdgeId) -> bool {
    exists|c: CoEdgeId| #[trigger]
        model.coedges.dom().contains(c) && model.coedges[c].edge == edge
            && model.loops.dom().contains(model.coedges[c].loop_id)
            && model.loops[model.coedges[c].loop_id].face == face
}

/// Whether two faces share an edge.
pub open spec fn touch(model: Model, a: FaceId, b: FaceId) -> bool {
    exists|edge: EdgeId| #[trigger]
        bounds_face(model, a, edge) && bounds_face(model, b, edge)
}

/// Whether each face of a path shares an edge with the next.
pub open spec fn leads_on(model: Model, path: Seq<FaceId>) -> bool {
    forall|i: int| 0 <= i < path.len() - 1 ==> touch(model, #[trigger] path[i], path[i + 1])
}

/// Whether one face can be reached from another over edges that faces of a shell
/// share.
pub open spec fn reached(model: Model, faces: Seq<FaceId>, a: FaceId, b: FaceId) -> bool {
    exists|path: Seq<FaceId>|
        path.len() > 0 && path[0] == a && path.last() == b && (forall|i: int|
            0 <= i < path.len() ==> faces.contains(#[trigger] path[i])) && #[trigger] leads_on(
            model,
            path,
        )
}

/// Everything that bounds a face still does.
spec fn extends(s: AsmState, t: AsmState) -> bool {
    &&& forall|k: CurveKey| #[trigger]
        edge_known(s, k) ==> edge_known(t, k) && edge_under(t, k) == edge_under(s, k)
    &&& forall|c: CoEdgeId| #[trigger]
        s.model.coedges.dom().contains(c) ==> t.model.coedges.dom().contains(c)
            && t.model.coedges[c].edge == s.model.coedges[c].edge && t.model.coedges[c].loop_id
            == s.model.coedges[c].loop_id
    &&& forall|l: LoopId| #[trigger]
        s.model.loops.dom().contains(l) ==> t.model.loops.dom().contains(l)
            && t.model.loops[l].face == s.model.loops[l].face
}

/// Whether the edge of a curve bounds a face.
spec fn bounded(s: AsmState, face: FaceId, key: CurveKey) -> bool {
    edge_known(s, key) && bounds_face(s.model, face, edge_under(s, key))
}

proof fn lemma_still_bounded(s: AsmState, t: AsmState, face: FaceId, key: CurveKey)
    requires
        extends(s, t),
        bounded(s, face, key),
    ensures
        bounded(t, face, key),
{
    let edge = edge_under(s, key);
    let c = choose|c: CoEdgeId| #[trigger]
        s.model.coedges.dom().contains(c) && s.model.coedges[c].edge == edge
            && s.model.loops.dom().contains(s.model.coedges[c].loop_id)
            && s.model.loops[s.model.coedges[c].loop_id].face == face;
    assert(t.model.coedges.dom().contains(c));
    assert(t.model.loops.dom().contains(s.model.coedges[c].loop_id));
}

/// Whether the curves of some uses bound a face.
spec fn all_bounded(s: AsmState, face: FaceId, uses: Seq<UseView>) -> bool {
    forall|i: int| 0 <= i < uses.len() ==> bounded(s, face, key_of(#[trigger] uses[i]))
}

proof fn lemma_still_all_bounded(s: AsmState, t: AsmState, face: FaceId, uses: Seq<UseView>)
    requires
        extends(s, t),
        all_bounded(s, face, uses),
    ensures
        all_bounded(t, face, uses),
{
    assert forall|i: int| 0 <= i < uses.len() implies bounded(
        t,
        face,
        key_of(#[trigger] uses[i]),
    ) by {
        lemma_still_bounded(s, t, face, key_of(uses[i]));
    }
}

proof fn lemma_use_extends(s: AsmState, t: AsmState, u: UseView, edge: EdgeId, sense: CoEdgeSense)
    requires
        use_made(s, t, u, edge, sense),
    ensures
        extends(s, t),
        t.model.loops == s.model.loops,
        edge_known(t, key_of(u)),
        edge_under(t, key_of(u)) == edge,
{
    lemma_use_effect(s, t, u, edge, sense);
}

proof fn lemma_uses_bound(
    s: AsmState,
    t: AsmState,
    uses: Seq<UseView>,
    lp: LoopId,
    ids: Seq<CoEdgeId>,
    face: FaceId,
)
    requires
        uses_made(s, t, uses, lp, ids),
        s.model.loops.dom().contains(lp),
        s.model.loops[lp].face == face,
    ensures
        extends(s, t),
        all_bounded(t, face, uses),
    decreases uses.len(),
{
    if uses.len() > 0 {
        let (m, n, edge, sense) = choose|
            m: AsmState,
            n: AsmState,
            edge: EdgeId,
            sense: CoEdgeSense,
        |
            uses_made(s, m, uses.drop_last(), lp, ids.drop_last()) && #[trigger] use_made(
                m,
                n,
                uses.last(),
                edge,
                sense,
            ) && coedge_added(n, t, ids.last(), edge, sense, lp);
        lemma_uses_bound(s, m, uses.drop_last(), lp, ids.drop_last(), face);
        lemma_use_extends(m, n, uses.last(), edge, sense);
        assert(extends(m, t));
        lemma_still_all_bounded(m, t, face, uses.drop_last());
        assert(t.model.coedges.dom().contains(ids.last()));
        assert(bounded(t, face, key_of(uses.last())));
        assert forall|i: int| 0 <= i < uses.len() implies bounded(
            t,
            face,
            key_of(#[trigger] uses[i]),
        ) by {
            if i < uses.len() - 1 {
                assert(uses.drop_last()[i] == uses[i]);
            }
        }
    }
}

proof fn lemma_loop_bounds(
    s: AsmState,
    t: AsmState,
    uses: Seq<UseView>,
    face: FaceId,
    lp: LoopId,
)
    requires
        loop_made(s, t, uses, face, lp),
    ensures
        extends(s, t),
        all_bounded(t, face, uses),
{
    let (b, ids) = choose|b: AsmState, ids: Seq<CoEdgeId>| #[trigger]
        uses_made(with_loop(s, lp, face), b, uses, lp, ids) && ring_closed(b, t, ids, lp);
    let f = with_loop(s, lp, face);
    assert(extends(s, f));
    lemma_uses_bound(f, b, uses, lp, ids, face);
    assert(b.model.loops.dom().contains(lp)) by {
        assert(f.model.loops.dom().contains(lp));
    }
    assert(extends(b, t));
    lemma_still_all_bounded(b, t, face, uses);
    assert(extends(s, t));
}

proof fn lemma_loops_bound(
    s: AsmState,
    t: AsmState,
    all: Seq<Seq<UseView>>,
    face: FaceId,
    loops: Seq<LoopId>,
)
    requires
        loops_made(s, t, all, face, loops),
    ensures
        extends(s, t),
        all_bounded(t, face, all_uses(all)),
    decreases all.len(),
{
    if all.len() > 0 {
        let m = choose|m: AsmState|
            loops_made(s, m, all.drop_last(), face, loops.drop_last()) && #[trigger] loop_made(
                m,
                t,
                all.last(),
                face,
                loops.last(),
            );
        lemma_loops_bound(s, m, all.drop_last(), face, loops.drop_last());
        lemma_loop_bounds(m, t, all.last(), face, loops.last());
        let rest = all_uses(all.drop_last());
        lemma_still_all_bounded(m, t, face, rest);
        assert forall|i: int| 0 <= i < all_uses(all).len() implies bounded(
            t,
            face,
            key_of(#[trigger] all_uses(all)[i]),
        ) by {
            if i < rest.len() {
                assert(all_uses(all)[i] == rest[i]);
            } else {
                assert(all_uses(all)[i] == all.last()[i - rest.len()]);
            }
        }
    }
}

/// All uses of a face.
pub open spec fn face_uses(face: AsmFace) -> Seq<UseView> {
    face.outer + all_uses(face.inner)
}

proof fn lemma_face_bounds(s: AsmState, t: AsmState, plan: AsmFace, face: FaceId)
    requires
        face_made(
            s,
            t,
            plan.geom,
            FaceNormal::Same,
            plan.extent,
            plan.outer,
            plan.inner,
            face,
        ),
    ensures
        extends(s, t),
        all_bounded(t, face, face_uses(plan)),
{
    let (f, a, b, outer_loop, inner_loops) = choose|
        f: AsmState,
        a: AsmState,
        b: AsmState,
        outer_loop: LoopId,
        inner_loops: Seq<LoopId>,
    |
        f == (AsmState {
            model: Model {
                faces: s.model.faces.insert(face, f.model.faces[face]),
                ..s.model
            },
            ..s
        }) && #[trigger] loop_made(f, a, plan.outer, face, outer_loop) && #[trigger] loops_made(
            a,
            b,
            plan.inner,
            face,
            inner_loops,
        ) && t == (AsmState {
            model: Model { faces: s.model.faces.insert(face, t.model.faces[face]), ..b.model },
            ..b
        });
    assert(extends(s, f));
    lemma_loop_bounds(f, a, plan.outer, face, outer_loop);
    lemma_loops_bound(a, b, plan.inner, face, inner_loops);
    lemma_still_all_bounded(a, b, face, plan.outer);
    assert(extends(b, t));
    assert forall|i: int| 0 <= i < face_uses(plan).len() implies bounded(
        t,
        face,
        key_of(#[trigger] face_uses(plan)[i]),
    ) by {
        let n = plan.outer.len() as int;
        if i < n {
            assert(face_uses(plan)[i] == plan.outer[i]);
            lemma_still_bounded(b, t, face, key_of(plan.outer[i]));
        } else {
            let inner = all_uses(plan.inner);
            assert(face_uses(plan)[i] == inner[i - n]);
            lemma_still_bounded(b, t, face, key_of(inner[i - n]));
        }
    }
}

proof fn lemma_faces_bound(s: AsmState, t: AsmState, plans: Seq<AsmFace>, ids: Seq<FaceId>)
    requires
        faces_made(s, t, plans, ids),
    ensures
        extends(s, t),
        ids.len() == plans.len(),
        forall|i: int|
            0 <= i < plans.len() ==> all_bounded(t, ids[i], face_uses(#[trigger] plans[i])),
    decreases plans.len(),
{
    if plans.len() > 0 {
        let last = plans.last();
        let m = choose|m: AsmState|
            faces_made(s, m, plans.drop_last(), ids.drop_last()) && #[trigger] face_made(
                m,
                t,
                last.geom,
                FaceNormal::Same,
                last.extent,
                last.outer,
                last.inner,
                ids.last(),
            );
        lemma_faces_bound(s, m, plans.drop_last(), ids.drop_last());
        lemma_face_bounds(m, t, last, ids.last());
        assert forall|i: int| 0 <= i < plans.len() implies all_bounded(
            t,
            ids[i],
            face_uses(#[trigger] plans[i]),
        ) by {
            if i < plans.len() - 1 {
                assert(plans.drop_last()[i] == plans[i]);
                assert(ids.drop_last()[i] == ids[i]);
                lemma_still_all_bounded(m, t, ids[i], face_uses(plans[i]));
            }
        }
    }
}

// ── Planned faces that share a curve ────────────────────────────────────────

/// Whether a face runs along a curve.
spec fn has_key(face: AsmFace, key: CurveKey) -> bool {
    exists|i: int| 0 <= i < face_uses(face).len() && key_of(#[trigger] face_uses(face)[i]) == key
}

/// Whether two faces run along one curve.
#[verifier::opaque]
spec fn shares(a: AsmFace, b: AsmFace) -> bool {
    exists|key: CurveKey| #[trigger] has_key(a, key) && has_key(b, key)
}

/// Whether planned faces lead from one to another, each sharing a curve with the
/// next.
spec fn is_chain(faces: Seq<AsmFace>, path: Seq<AsmFace>, a: AsmFace, b: AsmFace) -> bool {
    &&& path.len() > 0
    &&& path[0] == a
    &&& path.last() == b
    &&& forall|i: int| 0 <= i < path.len() ==> faces.contains(#[trigger] path[i])
    &&& forall|i: int| 0 <= i < path.len() - 1 ==> shares(#[trigger] path[i], path[i + 1])
}

/// Whether a planned face can be reached from another.
#[verifier::opaque]
spec fn chained(faces: Seq<AsmFace>, a: AsmFace, b: AsmFace) -> bool {
    exists|path: Seq<AsmFace>| is_chain(faces, path, a, b)
}

proof fn lemma_chain_start(faces: Seq<AsmFace>, a: AsmFace)
    requires
        faces.contains(a),
    ensures
        chained(faces, a, a),
{
    reveal(chained);
    assert(is_chain(faces, seq![a], a, a));
}

proof fn lemma_chain_on(faces: Seq<AsmFace>, a: AsmFace, b: AsmFace, c: AsmFace)
    requires
        chained(faces, a, b),
        shares(b, c),
        faces.contains(c),
    ensures
        chained(faces, a, c),
{
    reveal(chained);
    let path = choose|path: Seq<AsmFace>| is_chain(faces, path, a, b);
    let longer = path.push(c);
    assert forall|i: int| 0 <= i < longer.len() implies faces.contains(#[trigger] longer[i]) by {
        if i < path.len() {
            assert(longer[i] == path[i]);
        }
    }
    assert forall|i: int| 0 <= i < longer.len() - 1 implies shares(
        #[trigger] longer[i],
        longer[i + 1],
    ) by {
        assert(longer[i] == path[i]);
        if i < path.len() - 1 {
            assert(longer[i + 1] == path[i + 1]);
        }
    }
    assert(is_chain(faces, longer, a, c));
}

proof fn lemma_shares_by(a: AsmFace, b: AsmFace, i: int, j: int)
    requires
        0 <= i < face_uses(a).len(),
        0 <= j < face_uses(b).len(),
        key_of(face_uses(a)[i]) == key_of(face_uses(b)[j]),
    ensures
        shares(a, b),
        shares(b, a),
{
    reveal(shares);
    let key = key_of(face_uses(a)[i]);
    assert(key_of(face_uses(b)[j]) == key);
    assert(has_key(a, key) && has_key(b, key));
}

/// The first uses of a tube: along its near circle and along its far one.
proof fn lemma_tube_rims(face: AsmFace, near: CircleUse, far: CircleUse, crossings: Seq<Window>, marks: Seq<Mark>)
    requires
        face.outer == seq![UseView::Circle(near)],
        face.inner == tube_inner(far, crossings, marks),
    ensures
        face_uses(face).len() >= 2,
        face_uses(face)[0] == UseView::Circle(near),
        face_uses(face)[1] == UseView::Circle(far),
        forall|q: int, u: UseView|
            0 <= q < marks.len() && #[trigger] mark_uses(crossings, marks[q]).contains(u)
                ==> face_uses(face).contains(u),
{
    let n = marks.len() as int;
    let rims = seq![seq![UseView::Circle(far)]];
    let more = marks_uses(crossings, marks, n);
    lemma_all_uses_first(rims, more);
    assert(all_uses(rims) =~= seq![UseView::Circle(far)]) by {
        assert(rims.drop_last() =~= Seq::<Seq<UseView>>::empty());
        assert(all_uses(rims.drop_last()) =~= Seq::<UseView>::empty());
    }
    let all = face_uses(face);
    let rest = all_uses(more);
    assert(all =~= seq![UseView::Circle(near)] + (seq![UseView::Circle(far)] + rest));
    assert forall|q: int, u: UseView|
        0 <= q < marks.len() && #[trigger] mark_uses(crossings, marks[q]).contains(
            u,
        ) implies all.contains(u) by {
        lemma_marks_hold(crossings, marks, n, q, u);
        let i = choose|i: int| 0 <= i < rest.len() && rest[i] == u;
        assert(all[2 + i] == u);
    }
}

proof fn lemma_all_uses_first(a: Seq<Seq<UseView>>, b: Seq<Seq<UseView>>)
    ensures
        all_uses(a + b) == all_uses(a) + all_uses(b),
    decreases b.len(),
{
    if b.len() == 0 {
        assert(a + b =~= a);
        assert(all_uses(a) + all_uses(b) =~= all_uses(a));
    } else {
        lemma_all_uses_first(a, b.drop_last());
        assert((a + b).drop_last() =~= a + b.drop_last());
        assert((a + b).last() == b.last());
        assert(all_uses(a + b) =~= all_uses(a) + all_uses(b));
    }
}

// ── The faces of a filament ─────────────────────────────────────────────────

/// Part `p` of filament `f`: its legs and its bends in turn.
#[verifier::opaque]
spec fn part(
    sheets: Seq<FilamentSheet>,
    crossings: Seq<Window>,
    log: Seq<Imprint>,
    f: int,
    p: int,
) -> AsmFace {
    let base = leg_base(sheets, f);
    if p % 2 == 0 {
        leg_face(sheets[f].legs@[p / 2], f, base, p / 2, crossings, log)
    } else {
        elbow_face(sheets[f], f, base, p / 2, crossings, log)
    }
}

/// How many parts a filament has.
spec fn part_count(sheets: Seq<FilamentSheet>, f: int) -> int {
    2 * sheets[f].legs@.len() - 1
}

/// The disk at the start of a filament.
#[verifier::opaque]
spec fn start_cap(sheets: Seq<FilamentSheet>, f: int) -> AsmFace {
    let leg = sheets[f].legs@[0];
    cap_face(leg.cap_in, grouped(leg.rim_in, group_in(leg_base(sheets, f), 0)))
}

/// The disk at the end of a filament.
#[verifier::opaque]
spec fn end_cap(sheets: Seq<FilamentSheet>, f: int) -> AsmFace {
    let last = sheets[f].legs@.len() - 1;
    let leg = sheets[f].legs@[last];
    cap_face(leg.cap_out, grouped(leg.rim_out, group_out(leg_base(sheets, f), last)))
}

/// Whether a face is one of a filament's.
#[verifier::opaque]
spec fn of_filament(
    sheets: Seq<FilamentSheet>,
    crossings: Seq<Window>,
    log: Seq<Imprint>,
    f: int,
    x: AsmFace,
) -> bool {
    ||| x == start_cap(sheets, f)
    ||| x == end_cap(sheets, f)
    ||| exists|p: int|
        0 <= p < part_count(sheets, f) && x == #[trigger] part(sheets, crossings, log, f, p)
}

proof fn lemma_push_contains(faces: Seq<AsmFace>, more: AsmFace, x: AsmFace)
    ensures
        faces.push(more).contains(x) <==> faces.contains(x) || x == more,
{
    let all = faces.push(more);
    if faces.contains(x) {
        let i = choose|i: int| 0 <= i < faces.len() && faces[i] == x;
        assert(all[i] == x);
    }
    if all.contains(x) {
        let i = choose|i: int| 0 <= i < all.len() && all[i] == x;
        if i < faces.len() {
            assert(faces[i] == x);
        }
    }
    assert(all[faces.len() as int] == more);
}

proof fn lemma_add_contains(a: Seq<AsmFace>, b: Seq<AsmFace>, x: AsmFace)
    ensures
        (a + b).contains(x) <==> a.contains(x) || b.contains(x),
{
    let all = a + b;
    if a.contains(x) {
        let i = choose|i: int| 0 <= i < a.len() && a[i] == x;
        assert(all[i] == x);
    }
    if b.contains(x) {
        let i = choose|i: int| 0 <= i < b.len() && b[i] == x;
        assert(all[a.len() + i] == x);
    }
    if all.contains(x) {
        let i = choose|i: int| 0 <= i < all.len() && all[i] == x;
        if i < a.len() {
            assert(a[i] == x);
        } else {
            assert(b[i - a.len()] == x);
        }
    }
}

/// What the faces of the first `k` legs are.
proof fn lemma_legs_contain(
    sheet: FilamentSheet,
    f: int,
    base: int,
    crossings: Seq<Window>,
    log: Seq<Imprint>,
    k: int,
    x: AsmFace,
)
    requires
        0 <= k <= sheet.legs@.len(),
    ensures
        leg_faces(sheet, f, base, crossings, log, k).contains(x) <==> (exists|i: int|
            0 <= i < k && x == #[trigger] leg_face(
                sheet.legs@[i],
                f,
                base,
                i,
                crossings,
                log,
            )) || (k > 0 && x == cap_face(
            sheet.legs@[0].cap_in,
            grouped(sheet.legs@[0].rim_in, group_in(base, 0)),
        )) || (k > 0 && k == sheet.legs@.len() && x == cap_face(
            sheet.legs@[k - 1].cap_out,
            grouped(sheet.legs@[k - 1].rim_out, group_out(base, k - 1)),
        )),
    decreases k,
{
    if k > 0 {
        let j = k - 1;
        let leg = sheet.legs@[j];
        let rest = leg_faces(sheet, f, base, crossings, log, j);
        let tube = leg_face(leg, f, base, j, crossings, log);
        let start = cap_face(leg.cap_in, grouped(leg.rim_in, group_in(base, j)));
        let end = cap_face(leg.cap_out, grouped(leg.rim_out, group_out(base, j)));
        lemma_legs_contain(sheet, f, base, crossings, log, j, x);
        lemma_push_contains(rest, tube, x);
        let tubed = rest.push(tube);
        lemma_push_contains(tubed, start, x);
        lemma_push_contains(tubed, end, x);
        lemma_push_contains(tubed.push(start), end, x);
    }
}

proof fn lemma_elbows_contain(
    sheet: FilamentSheet,
    f: int,
    base: int,
    crossings: Seq<Window>,
    log: Seq<Imprint>,
    k: int,
    x: AsmFace,
)
    requires
        0 <= k,
    ensures
        elbow_faces(sheet, f, base, crossings, log, k).contains(x) <==> exists|i: int|
            0 <= i < k && x == #[trigger] elbow_face(sheet, f, base, i, crossings, log),
    decreases k,
{
    if k > 0 {
        lemma_elbows_contain(sheet, f, base, crossings, log, k - 1, x);
        lemma_push_contains(
            elbow_faces(sheet, f, base, crossings, log, k - 1),
            elbow_face(sheet, f, base, k - 1, crossings, log),
            x,
        );
    }
}

/// The faces of a filament are its legs with their disks, and its bends.
proof fn lemma_filament_contains(
    sheets: Seq<FilamentSheet>,
    crossings: Seq<Window>,
    log: Seq<Imprint>,
    f: int,
    x: AsmFace,
)
    requires
        joined_up(sheets),
        0 <= f < sheets.len(),
    ensures
        ({
            let sheet = sheets[f];
            let base = leg_base(sheets, f);
            let legs = leg_faces(sheet, f, base, crossings, log, sheet.legs@.len() as int);
            let bends = elbow_faces(sheet, f, base, crossings, log, sheet.elbows@.len() as int);
            of_filament(sheets, crossings, log, f, x) <==> legs.contains(x) || bends.contains(x)
        }),
{
    reveal(part);
    reveal(start_cap);
    reveal(end_cap);
    reveal(of_filament);
    let base = leg_base(sheets, f);
    let sheet = sheets[f];
    let n = sheet.legs@.len() as int;
    let e = sheet.elbows@.len() as int;
    assert(e + 1 == n);
    lemma_legs_contain(sheet, f, base, crossings, log, n, x);
    lemma_elbows_contain(sheet, f, base, crossings, log, e, x);
    let legs = leg_faces(sheet, f, base, crossings, log, n);
    let bends = elbow_faces(sheet, f, base, crossings, log, e);
    if legs.contains(x) && x != start_cap(sheets, f) && x != end_cap(sheets, f) {
        let i = choose|i: int|
            0 <= i < n && x == #[trigger] leg_face(sheet.legs@[i], f, base, i, crossings, log);
        assert((2 * i) / 2 == i && (2 * i) % 2 == 0);
        assert(x == part(sheets, crossings, log, f, 2 * i));
    }
    if bends.contains(x) {
        let i = choose|i: int|
            0 <= i < e && x == #[trigger] elbow_face(sheet, f, base, i, crossings, log);
        assert((2 * i + 1) / 2 == i && (2 * i + 1) % 2 == 1);
        assert(x == part(sheets, crossings, log, f, 2 * i + 1));
    }
    if exists|p: int|
        0 <= p < part_count(sheets, f) && x == #[trigger] part(sheets, crossings, log, f, p) {
        let p = choose|p: int|
            0 <= p < part_count(sheets, f) && x == #[trigger] part(sheets, crossings, log, f, p);
        if p % 2 == 0 {
            assert(x == leg_face(sheet.legs@[p / 2], f, base, p / 2, crossings, log));
        } else {
            assert(x == elbow_face(sheet, f, base, p / 2, crossings, log));
        }
    }
}

/// The faces of a scaffold are those of its filaments.
proof fn lemma_scaffold_contains(
    sheets: Seq<FilamentSheet>,
    crossings: Seq<Window>,
    log: Seq<Imprint>,
    k: int,
    x: AsmFace,
)
    requires
        joined_up(sheets),
        0 <= k <= sheets.len(),
    ensures
        scaffold_faces(sheets, crossings, log, k).contains(x) <==> exists|f: int|
            0 <= f < k && #[trigger] of_filament(sheets, crossings, log, f, x),
    decreases k,
{
    if k > 0 {
        let f = k - 1;
        let base = leg_base(sheets, f);
        let sheet = sheets[f];
        let rest = scaffold_faces(sheets, crossings, log, f);
        let legs = leg_faces(sheet, f, base, crossings, log, sheet.legs@.len() as int);
        let bends = elbow_faces(sheet, f, base, crossings, log, sheet.elbows@.len() as int);
        lemma_scaffold_contains(sheets, crossings, log, f, x);
        lemma_filament_contains(sheets, crossings, log, f, x);
        lemma_add_contains(rest, legs, x);
        lemma_add_contains(rest + legs, bends, x);
    }
}

/// Parts of filaments are among the faces of a scaffold.
proof fn lemma_part_in(
    sheets: Seq<FilamentSheet>,
    crossings: Seq<Window>,
    log: Seq<Imprint>,
    f: int,
    p: int,
)
    requires
        joined_up(sheets),
        0 <= f < sheets.len(),
        0 <= p < part_count(sheets, f),
    ensures
        scaffold_faces(sheets, crossings, log, sheets.len() as int).contains(
            part(sheets, crossings, log, f, p),
        ),
{
    let x = part(sheets, crossings, log, f, p);
    assert(of_filament(sheets, crossings, log, f, x)) by {
        reveal(of_filament);
    }
    lemma_scaffold_contains(sheets, crossings, log, sheets.len() as int, x);
}

/// The member that a part is.
spec fn member_at(f: int, p: int) -> Member {
    if p % 2 == 0 {
        Member::Leg { f: f as usize, i: (p / 2) as usize }
    } else {
        Member::Elbow { f: f as usize, i: (p / 2) as usize }
    }
}

/// The near and far circles of a part.
proof fn lemma_part_rims(
    sheets: Seq<FilamentSheet>,
    crossings: Seq<Window>,
    log: Seq<Imprint>,
    f: int,
    p: int,
)
    requires
        joined_up(sheets),
        0 <= f < sheets.len(),
        0 <= p < part_count(sheets, f),
    ensures
        ({
            let base = leg_base(sheets, f);
            let legs = sheets[f].legs@;
            let x = part(sheets, crossings, log, f, p);
            let i = p / 2;
            let marks = marks_of(log, member_at(f, p));
            &&& face_uses(x).len() >= 2
            &&& p % 2 == 0 ==> face_uses(x)[0] == UseView::Circle(
                grouped(legs[i].rim_in, group_in(base, i)),
            ) && face_uses(x)[1] == UseView::Circle(grouped(legs[i].rim_out, group_out(base, i)))
            &&& p % 2 == 1 ==> face_uses(x)[0] == UseView::Circle(
                grouped(legs[i].rim_out, group_out(base, i)),
            ) && face_uses(x)[1] == UseView::Circle(
                grouped(legs[i + 1].rim_in, group_in(base, i + 1)),
            )
            &&& forall|q: int, u: UseView|
                0 <= q < marks.len() && #[trigger] mark_uses(crossings, marks[q]).contains(u)
                    ==> face_uses(x).contains(u)
        }),
{
    reveal(part);
    let base = leg_base(sheets, f);
    let legs = sheets[f].legs@;
    let x = part(sheets, crossings, log, f, p);
    let i = p / 2;
    if p % 2 == 0 {
        lemma_tube_rims(
            x,
            grouped(legs[i].rim_in, group_in(base, i)),
            grouped(legs[i].rim_out, group_out(base, i)),
            crossings,
            marks_of(log, Member::Leg { f: f as usize, i: i as usize }),
        );
    } else {
        lemma_tube_rims(
            x,
            grouped(legs[i].rim_out, group_out(base, i)),
            grouped(legs[i + 1].rim_in, group_in(base, i + 1)),
            crossings,
            marks_of(log, Member::Elbow { f: f as usize, i: i as usize }),
        );
    }
}

/// Parts of a filament that follow each other share a rim.
proof fn lemma_parts_share(
    sheets: Seq<FilamentSheet>,
    crossings: Seq<Window>,
    log: Seq<Imprint>,
    f: int,
    p: int,
)
    requires
        joined_up(sheets),
        0 <= f < sheets.len(),
        0 <= p,
        p + 1 < part_count(sheets, f),
    ensures
        shares(part(sheets, crossings, log, f, p), part(sheets, crossings, log, f, p + 1)),
        shares(part(sheets, crossings, log, f, p + 1), part(sheets, crossings, log, f, p)),
{
    lemma_part_rims(sheets, crossings, log, f, p);
    lemma_part_rims(sheets, crossings, log, f, p + 1);
    assert(p % 2 == 0 ==> (p + 1) / 2 == p / 2 && (p + 1) % 2 == 1);
    assert(p % 2 == 1 ==> (p + 1) / 2 == p / 2 + 1 && (p + 1) % 2 == 0);
    lemma_shares_by(
        part(sheets, crossings, log, f, p),
        part(sheets, crossings, log, f, p + 1),
        1,
        0,
    );
}

/// From one part of a filament every other can be reached.
proof fn lemma_along(
    sheets: Seq<FilamentSheet>,
    crossings: Seq<Window>,
    log: Seq<Imprint>,
    faces: Seq<AsmFace>,
    root: AsmFace,
    f: int,
    p: int,
    q: int,
)
    requires
        joined_up(sheets),
        faces == scaffold_faces(sheets, crossings, log, sheets.len() as int),
        0 <= f < sheets.len(),
        0 <= p < part_count(sheets, f),
        0 <= q < part_count(sheets, f),
        chained(faces, root, part(sheets, crossings, log, f, p)),
    ensures
        chained(faces, root, part(sheets, crossings, log, f, q)),
    decreases
            if p < q {
                q - p
            } else {
                p - q
            },
{
    if p != q {
        let r = if p < q {
            q - 1
        } else {
            q + 1
        };
        lemma_along(sheets, crossings, log, faces, root, f, p, r);
        if p < q {
            lemma_parts_share(sheets, crossings, log, f, r);
        } else {
            lemma_parts_share(sheets, crossings, log, f, q);
        }
        let x = part(sheets, crossings, log, f, q);
        lemma_part_in(sheets, crossings, log, f, q);
        lemma_chain_on(faces, root, part(sheets, crossings, log, f, r), x);
    }
}

/// From one part of a filament every face of it can be reached.
proof fn lemma_all_along(
    sheets: Seq<FilamentSheet>,
    crossings: Seq<Window>,
    log: Seq<Imprint>,
    faces: Seq<AsmFace>,
    root: AsmFace,
    f: int,
    p: int,
    x: AsmFace,
)
    requires
        joined_up(sheets),
        faces == scaffold_faces(sheets, crossings, log, sheets.len() as int),
        0 <= f < sheets.len(),
        0 <= p < part_count(sheets, f),
        chained(faces, root, part(sheets, crossings, log, f, p)),
        of_filament(sheets, crossings, log, f, x),
    ensures
        chained(faces, root, x),
{
    reveal(of_filament);
    reveal(start_cap);
    reveal(end_cap);
    let last = part_count(sheets, f) - 1;
    lemma_scaffold_contains(sheets, crossings, log, sheets.len() as int, x);
    if x == start_cap(sheets, f) {
        lemma_along(sheets, crossings, log, faces, root, f, p, 0);
        lemma_part_rims(sheets, crossings, log, f, 0);
        let first = part(sheets, crossings, log, f, 0);
        assert(face_uses(x)[0] == x.outer[0]);
        lemma_shares_by(first, x, 0, 0);
        lemma_chain_on(faces, root, first, x);
    } else if x == end_cap(sheets, f) {
        lemma_along(sheets, crossings, log, faces, root, f, p, last);
        lemma_part_rims(sheets, crossings, log, f, last);
        let end = part(sheets, crossings, log, f, last);
        assert(last % 2 == 0 && last / 2 == sheets[f].legs@.len() - 1);
        assert(face_uses(x)[0] == x.outer[0]);
        lemma_shares_by(end, x, 1, 0);
        lemma_chain_on(faces, root, end, x);
    } else {
        let q = choose|q: int|
            0 <= q < part_count(sheets, f) && x == #[trigger] part(sheets, crossings, log, f, q);
        lemma_along(sheets, crossings, log, faces, root, f, p, q);
    }
}

// ── From filament to filament ───────────────────────────────────────────────

/// The filament of a member.
pub open spec fn filament_of(member: Member) -> int {
    match member {
        Member::Leg { f, i } => f as int,
        Member::Elbow { f, i } => f as int,
    }
}

/// Whether a window that was accepted joins two filaments.
pub open spec fn joins(all: Seq<Crossing>, origins: Seq<usize>, f: int, g: int) -> bool {
    exists|x: int|
        0 <= x < origins.len() && {
            let pair = all[(#[trigger] origins[x]) as int].pair;
            pair.fi == f && pair.fj == g || pair.fi == g && pair.fj == f
        }
}

/// Whether windows that were accepted lead from the first filament to another.
pub open spec fn led_to(all: Seq<Crossing>, origins: Seq<usize>, f: int) -> bool {
    exists|path: Seq<int>|
        path.len() > 0 && path[0] == 0 && path.last() == f && forall|i: int|
            0 <= i < path.len() - 1 ==> joins(all, origins, #[trigger] path[i], path[i + 1])
}

/// Whether the windows that were accepted join all filaments.
pub open spec fn windows_join_all(
    sheets: Seq<FilamentSheet>,
    all: Seq<Crossing>,
    near: Seq<Vec<Nearness>>,
    strict: bool,
) -> bool {
    forall|f: int|
        0 <= f < sheets.len() ==> #[trigger] led_to(
            all,
            imprints(all, near, strict, all.len() as int).origins,
            f,
        )
}

/// The part that a member is.
spec fn part_of(member: Member) -> int {
    match member {
        Member::Leg { f, i } => 2 * (i as int),
        Member::Elbow { f, i } => 2 * (i as int) + 1,
    }
}

/// The last quarter of a window is always there.
proof fn lemma_last_piece(window: Window)
    requires
        0 < window_ring(window).len(),
    ensures
        has_piece(window, 3),
{
    let m = window_ring(window).len() as int;
    assert(m * 4 / 4 - m * 3 / 4 >= 1) by (nonlinear_arith)
        requires
            m >= 1,
    ;
}

/// A member runs along the last quarter of a window that is cut into it.
proof fn lemma_member_runs(
    sheets: Seq<FilamentSheet>,
    crossings: Seq<Window>,
    log: Seq<Imprint>,
    m: int,
)
    requires
        joined_up(sheets),
        counted(sheets),
        0 <= m < log.len(),
        present(sheets, log[m].member, sheets.len() as int),
        0 < window_ring(crossings[log[m].mark.crossing as int]).len(),
    ensures
        ({
            let f = filament_of(log[m].member);
            let p = part_of(log[m].member);
            let window = crossings[log[m].mark.crossing as int];
            &&& 0 <= f < sheets.len()
            &&& 0 <= p < part_count(sheets, f)
            &&& has_key(
                part(sheets, crossings, log, f, p),
                CurveKey::Path(piece_key(window, 3)),
            )
        }),
{
    let member = log[m].member;
    let f = filament_of(member);
    let p = part_of(member);
    let mark = log[m].mark;
    let window = crossings[mark.crossing as int];
    let against = (Real { bits: 0 }).below(mark.facing);
    let u = piece_run(window, 3, against);
    let x = part(sheets, crossings, log, f, p);
    lemma_last_piece(window);
    lemma_window_holds(window, against, 4, 3);
    lemma_log_holds(log, m);
    let marks = marks_of(log, member);
    let q = choose|q: int| 0 <= q < marks.len() && marks[q] == mark;
    lemma_part_rims(sheets, crossings, log, f, p);
    match member {
        Member::Leg { f: g, i } => {
            assert(p % 2 == 0 && p / 2 == i && f as usize == g && (p / 2) as usize == i);
        },
        Member::Elbow { f: g, i } => {
            assert(p % 2 == 1 && p / 2 == i && f as usize == g && (p / 2) as usize == i);
        },
    }
    assert(member_at(f, p) == member);
    assert(mark_uses(crossings, marks[q]).contains(u));
    assert(face_uses(x).contains(u));
    let i = choose|i: int| 0 <= i < face_uses(x).len() && face_uses(x)[i] == u;
    lemma_piece_run_key(window, 3, against);
    assert(key_of(face_uses(x)[i]) == CurveKey::Path(piece_key(window, 3)));
}

/// A piece of a window has one key, whichever way it is run along.
proof fn lemma_piece_run_key(window: Window, j: int, against: bool)
    requires
        has_piece(window, j),
    ensures
        key_of(piece_run(window, j, against)) == CurveKey::Path(piece_key(window, j)),
{
    let piece = crate::assembly::quarter(window_ring(window), j);
    assert(piece.reverse()[0] == piece.last());
    assert(piece.reverse().last() == piece[0]);
}

/// Two filaments that a window joins have parts that share a curve.
proof fn lemma_window_shares(
    sheets: Seq<FilamentSheet>,
    crossings: Seq<Window>,
    all: Seq<Crossing>,
    near: Seq<Vec<Nearness>>,
    strict: bool,
    f: int,
    g: int,
) -> (parts: (int, int))
    requires
        joined_up(sheets),
        counted(sheets),
        all.len() <= u32::MAX,
        crossings_sound(sheets, all),
        crossings_fit(all),
        windows_of(crossings, all, imprints(all, near, strict, all.len() as int)),
        joins(all, imprints(all, near, strict, all.len() as int).origins, f, g),
    ensures
        ({
            let log = imprints(all, near, strict, all.len() as int).log;
            &&& 0 <= f < sheets.len()
            &&& 0 <= g < sheets.len()
            &&& 0 <= parts.0 < part_count(sheets, f)
            &&& 0 <= parts.1 < part_count(sheets, g)
            &&& shares(
                part(sheets, crossings, log, f, parts.0),
                part(sheets, crossings, log, g, parts.1),
            )
        }),
{
    let n = all.len() as int;
    let state = imprints(all, near, strict, n);
    let log = state.log;
    let x = choose|x: int|
        0 <= x < state.origins.len() && {
            let pair = all[(#[trigger] state.origins[x]) as int].pair;
            pair.fi == f && pair.fj == g || pair.fi == g && pair.fj == f
        };
    law_windows_are_cut_twice(all, near, strict, n, x);
    let c = all[state.origins[x] as int];
    assert(present(sheets, c.pair.one(), sheets.len() as int) && present(
        sheets,
        c.pair.other(),
        sheets.len() as int,
    ));
    assert(window_of(crossings[x], c, x));
    assert(window_ring(crossings[x]) == window_ring(c.window));
    let (a, b) = if c.pair.fi == f && c.pair.fj == g {
        (2 * x, 2 * x + 1)
    } else {
        (2 * x + 1, 2 * x)
    };
    lemma_member_runs(sheets, crossings, log, a);
    lemma_member_runs(sheets, crossings, log, b);
    let p = part_of(log[a].member);
    let q = part_of(log[b].member);
    assert(filament_of(log[a].member) == f && filament_of(log[b].member) == g);
    let key = CurveKey::Path(piece_key(crossings[x], 3));
    assert(has_key(part(sheets, crossings, log, f, p), key));
    assert(has_key(part(sheets, crossings, log, g, q), key));
    reveal(shares);
    (p, q)
}

/// From the first filament every face of one that windows lead to can be reached.
proof fn lemma_across(
    sheets: Seq<FilamentSheet>,
    crossings: Seq<Window>,
    all: Seq<Crossing>,
    near: Seq<Vec<Nearness>>,
    strict: bool,
    path: Seq<int>,
    k: int,
)
    requires
        joined_up(sheets),
        counted(sheets),
        all.len() <= u32::MAX,
        crossings_sound(sheets, all),
        crossings_fit(all),
        windows_of(crossings, all, imprints(all, near, strict, all.len() as int)),
        sheets.len() > 0,
        0 <= k < path.len(),
        path[0] == 0,
        forall|i: int|
            0 <= i < path.len() - 1 ==> joins(
                all,
                imprints(all, near, strict, all.len() as int).origins,
                #[trigger] path[i],
                path[i + 1],
            ),
    ensures
        ({
            let log = imprints(all, near, strict, all.len() as int).log;
            let faces = scaffold_faces(sheets, crossings, log, sheets.len() as int);
            let root = part(sheets, crossings, log, 0, 0);
            &&& 0 <= path[k] < sheets.len()
            &&& chained(faces, root, part(sheets, crossings, log, path[k], 0))
        }),
    decreases k,
{
    let n = all.len() as int;
    let state = imprints(all, near, strict, n);
    let log = state.log;
    let faces = scaffold_faces(sheets, crossings, log, sheets.len() as int);
    let root = part(sheets, crossings, log, 0, 0);
    if k == 0 {
        assert(sheets[0].elbows@.len() + 1 == sheets[0].legs@.len());
        lemma_part_in(sheets, crossings, log, 0, 0);
        lemma_chain_start(faces, root);
    } else {
        lemma_across(sheets, crossings, all, near, strict, path, k - 1);
        let f = path[k - 1];
        let g = path[k];
        assert(joins(all, state.origins, path[k - 1], path[k - 1 + 1]));
        let (p, q) = lemma_window_shares(sheets, crossings, all, near, strict, f, g);
        lemma_along(sheets, crossings, log, faces, root, f, 0, p);
        let entered = part(sheets, crossings, log, g, q);
        lemma_part_in(sheets, crossings, log, g, q);
        lemma_chain_on(faces, root, part(sheets, crossings, log, f, p), entered);
        lemma_along(sheets, crossings, log, faces, root, g, q, 0);
    }
}

// ── One piece ───────────────────────────────────────────────────────────────

/// Faces that share a curve share an edge.
proof fn lemma_shares_touch(
    t: AsmState,
    plans: Seq<AsmFace>,
    ids: Seq<FaceId>,
    i: int,
    j: int,
)
    requires
        ids.len() == plans.len(),
        forall|k: int|
            0 <= k < plans.len() ==> all_bounded(t, ids[k], face_uses(#[trigger] plans[k])),
        0 <= i < plans.len(),
        0 <= j < plans.len(),
        shares(plans[i], plans[j]),
    ensures
        touch(t.model, ids[i], ids[j]),
{
    reveal(shares);
    let key = choose|key: CurveKey| #[trigger] has_key(plans[i], key) && has_key(plans[j], key);
    let a = choose|a: int|
        0 <= a < face_uses(plans[i]).len() && key_of(#[trigger] face_uses(plans[i])[a]) == key;
    let b = choose|b: int|
        0 <= b < face_uses(plans[j]).len() && key_of(#[trigger] face_uses(plans[j])[b]) == key;
    assert(all_bounded(t, ids[i], face_uses(plans[i])));
    assert(all_bounded(t, ids[j], face_uses(plans[j])));
    assert(bounded(t, ids[i], key_of(face_uses(plans[i])[a])));
    assert(bounded(t, ids[j], key_of(face_uses(plans[j])[b])));
    assert(bounds_face(t.model, ids[i], edge_under(t, key)));
}

/// What can be reached from a face, the face can be reached from.
proof fn lemma_chain_back(faces: Seq<AsmFace>, a: AsmFace, b: AsmFace)
    requires
        chained(faces, a, b),
    ensures
        chained(faces, b, a),
{
    reveal(chained);
    let path = choose|path: Seq<AsmFace>| is_chain(faces, path, a, b);
    let back = path.reverse();
    let n = path.len() as int;
    assert forall|i: int| 0 <= i < back.len() implies faces.contains(#[trigger] back[i]) by {
        assert(back[i] == path[n - 1 - i]);
    }
    assert forall|i: int| 0 <= i < back.len() - 1 implies shares(#[trigger] back[i], back[i + 1]) by {
        assert(back[i] == path[n - 1 - i]);
        assert(back[i + 1] == path[n - 2 - i]);
        assert(shares(path[n - 2 - i], path[n - 2 - i + 1]));
        lemma_shares_back(path[n - 2 - i], path[n - 1 - i]);
    }
    assert(is_chain(faces, back, b, a));
}

/// What can be reached from a face that can be reached can be reached.
proof fn lemma_chain_through(faces: Seq<AsmFace>, a: AsmFace, b: AsmFace, c: AsmFace)
    requires
        chained(faces, a, b),
        chained(faces, b, c),
        shares(b, b),
    ensures
        chained(faces, a, c),
{
    reveal(chained);
    let one = choose|path: Seq<AsmFace>| is_chain(faces, path, a, b);
    let two = choose|path: Seq<AsmFace>| is_chain(faces, path, b, c);
    let path = one + two;
    let n = one.len() as int;
    assert forall|i: int| 0 <= i < path.len() implies faces.contains(#[trigger] path[i]) by {
        if i < n {
            assert(path[i] == one[i]);
        } else {
            assert(path[i] == two[i - n]);
        }
    }
    assert forall|i: int| 0 <= i < path.len() - 1 implies shares(#[trigger] path[i], path[i + 1]) by {
        if i < n - 1 {
            assert(path[i] == one[i] && path[i + 1] == one[i + 1]);
        } else if i == n - 1 {
            assert(path[i] == one.last() && path[i + 1] == two[0]);
        } else {
            assert(path[i] == two[i - n] && path[i + 1] == two[i - n + 1]);
        }
    }
    assert(is_chain(faces, path, a, c));
}

/// Where a planned face stands.
spec fn place_of(plans: Seq<AsmFace>, x: AsmFace) -> int {
    choose|k: int| 0 <= k < plans.len() && plans[k] == x
}

/// A face that a planned face leads to is reached over faces.
proof fn lemma_chain_reaches(
    t: AsmState,
    plans: Seq<AsmFace>,
    ids: Seq<FaceId>,
    i: int,
    j: int,
)
    requires
        ids.len() == plans.len(),
        forall|k: int|
            0 <= k < plans.len() ==> all_bounded(t, ids[k], face_uses(#[trigger] plans[k])),
        0 <= i < plans.len(),
        0 <= j < plans.len(),
        chained(plans, plans[i], plans[j]),
        shares(plans[i], plans[i]),
        shares(plans[j], plans[j]),
    ensures
        reached(t.model, ids, ids[i], ids[j]),
{
    reveal(chained);
    let chain = choose|path: Seq<AsmFace>| is_chain(plans, path, plans[i], plans[j]);
    let n = chain.len() as int;
    let mid = Seq::new(chain.len(), |k: int| place_of(plans, chain[k]));
    assert forall|k: int| 0 <= k < n implies 0 <= #[trigger] mid[k] < plans.len()
        && plans[mid[k]] == chain[k] by {
        assert(plans.contains(chain[k]));
    }
    let places = seq![i] + mid + seq![j];
    assert forall|k: int| 0 <= k < places.len() implies 0 <= #[trigger] places[k] < plans.len() by {
        if 0 < k <= n {
            assert(places[k] == mid[k - 1]);
        }
    }
    assert forall|k: int| 0 <= k < places.len() - 1 implies shares(
        plans[#[trigger] places[k]],
        plans[places[k + 1]],
    ) by {
        if k == 0 {
            assert(places[1] == mid[0]);
        } else if k < n {
            assert(places[k] == mid[k - 1] && places[k + 1] == mid[k]);
            assert(shares(chain[k - 1], chain[k - 1 + 1]));
        } else {
            assert(places[k] == mid[n - 1] && places[k + 1] == j);
        }
    }
    let path = Seq::new(places.len(), |k: int| ids[places[k]]);
    assert forall|k: int| 0 <= k < path.len() implies ids.contains(#[trigger] path[k]) by {
        assert(0 <= places[k] < plans.len());
        assert(ids[places[k]] == path[k]);
    }
    assert forall|k: int| 0 <= k < path.len() - 1 implies touch(
        t.model,
        #[trigger] path[k],
        path[k + 1],
    ) by {
        assert(0 <= places[k] < plans.len() && 0 <= places[k + 1] < plans.len());
        lemma_shares_touch(t, plans, ids, places[k], places[k + 1]);
    }
    assert(path[0] == ids[i]);
    assert(path.last() == ids[j]);
    assert(leads_on(t.model, path));
}

proof fn lemma_shares_back(a: AsmFace, b: AsmFace)
    requires
        shares(a, b),
    ensures
        shares(b, a),
{
    reveal(shares);
    let key = choose|key: CurveKey| #[trigger] has_key(a, key) && has_key(b, key);
    assert(has_key(b, key));
}

/// Every face of a scaffold whose windows join all filaments can be reached from
/// the first.
proof fn lemma_from_root(
    sheets: Seq<FilamentSheet>,
    crossings: Seq<Window>,
    all: Seq<Crossing>,
    near: Seq<Vec<Nearness>>,
    strict: bool,
    k: int,
)
    requires
        joined_up(sheets),
        counted(sheets),
        crossings_sound(sheets, all),
        crossings_fit(all),
        all.len() <= u32::MAX,
        windows_join_all(sheets, all, near, strict),
        windows_of(crossings, all, imprints(all, near, strict, all.len() as int)),
        ({
            let log = imprints(all, near, strict, all.len() as int).log;
            0 <= k < scaffold_faces(sheets, crossings, log, sheets.len() as int).len()
        }),
    ensures
        ({
            let log = imprints(all, near, strict, all.len() as int).log;
            let plans = scaffold_faces(sheets, crossings, log, sheets.len() as int);
            let root = part(sheets, crossings, log, 0, 0);
            &&& chained(plans, root, plans[k])
            &&& shares(root, root)
            &&& shares(plans[k], plans[k])
        }),
{
    let state = imprints(all, near, strict, all.len() as int);
    let log = state.log;
    let plans = scaffold_faces(sheets, crossings, log, sheets.len() as int);
    let root = part(sheets, crossings, log, 0, 0);
    let x = plans[k];
    assert(plans.contains(x));
    lemma_scaffold_contains(sheets, crossings, log, sheets.len() as int, x);
    let f = choose|f: int|
        0 <= f < sheets.len() && #[trigger] of_filament(sheets, crossings, log, f, x);
    assert(sheets[f].elbows@.len() + 1 == sheets[f].legs@.len());
    assert(sheets[0].elbows@.len() + 1 == sheets[0].legs@.len());
    assert(led_to(all, state.origins, f));
    let path = choose|path: Seq<int>|
        path.len() > 0 && path[0] == 0 && path.last() == f && forall|i: int|
            0 <= i < path.len() - 1 ==> joins(
                all,
                state.origins,
                #[trigger] path[i],
                path[i + 1],
            );
    lemma_across(sheets, crossings, all, near, strict, path, path.len() - 1);
    lemma_all_along(sheets, crossings, log, plans, root, f, 0, x);
    lemma_outer(sheets, crossings, log, f, x);
    lemma_part_rims(sheets, crossings, log, 0, 0);
    lemma_shares_by(root, root, 0, 0);
    lemma_shares_by(x, x, 0, 0);
}

/// Every face of a filament has a use.
proof fn lemma_outer(
    sheets: Seq<FilamentSheet>,
    crossings: Seq<Window>,
    log: Seq<Imprint>,
    f: int,
    x: AsmFace,
)
    requires
        joined_up(sheets),
        0 <= f < sheets.len(),
        of_filament(sheets, crossings, log, f, x),
    ensures
        face_uses(x).len() > 0,
{
    reveal(of_filament);
    reveal(start_cap);
    reveal(end_cap);
    if x != start_cap(sheets, f) && x != end_cap(sheets, f) {
        let p = choose|p: int|
            0 <= p < part_count(sheets, f) && x == #[trigger] part(sheets, crossings, log, f, p);
        lemma_part_rims(sheets, crossings, log, f, p);
    }
}

/// A fused scaffold hangs together: where the windows that were accepted join all
/// filaments, every face of its shell can be reached from every other over edges
/// that faces of the shell share.
pub proof fn law_scaffold_hangs_together(
    before: Model,
    after: Model,
    sheets: Seq<FilamentSheet>,
    all: Seq<Crossing>,
    near: Seq<Vec<Nearness>>,
    strict: bool,
    shell: ShellId,
    a: FaceId,
    b: FaceId,
)
    requires
        scaffold_fused(before, after, sheets, all, near, strict, shell),
        joined_up(sheets),
        counted(sheets),
        crossings_sound(sheets, all),
        crossings_fit(all),
        all.len() <= u32::MAX,
        windows_join_all(sheets, all, near, strict),
        after.shells[shell].faces@.contains(a),
        after.shells[shell].faces@.contains(b),
    ensures
        reached(after, after.shells[shell].faces@, a, b),
{
    let n = all.len() as int;
    let state = imprints(all, near, strict, n);
    let log = state.log;
    let (crossings, t, ids, solid) = choose|
        crossings: Seq<Window>,
        t: AsmState,
        ids: Seq<FaceId>,
        solid: SolidId,
    |
        windows_of(crossings, all, state) && #[trigger] faces_made(
            fresh(before),
            t,
            scaffold_faces(sheets, crossings, state.log, sheets.len() as int),
            ids,
        ) && #[trigger] assembled(t.model, after, ids, Some("scaffold"@), shell, solid);
    let plans = scaffold_faces(sheets, crossings, log, sheets.len() as int);
    lemma_faces_bound(fresh(before), t, plans, ids);
    let i = choose|i: int| 0 <= i < ids.len() && ids[i] == a;
    let j = choose|j: int| 0 <= j < ids.len() && ids[j] == b;
    let root = part(sheets, crossings, log, 0, 0);
    lemma_from_root(sheets, crossings, all, near, strict, i);
    lemma_from_root(sheets, crossings, all, near, strict, j);
    lemma_chain_back(plans, root, plans[i]);
    lemma_chain_through(plans, plans[i], root, plans[j]);
    lemma_chain_reaches(t, plans, ids, i, j);
    let path = choose|path: Seq<FaceId>|
        path.len() > 0 && path[0] == ids[i] && path.last() == ids[j] && (forall|i: int|
            0 <= i < path.len() ==> ids.contains(#[trigger] path[i])) && #[trigger] leads_on(
            t.model,
            path,
        );
    assert forall|k: int| 0 <= k < path.len() - 1 implies touch(
        after,
        #[trigger] path[k],
        path[k + 1],
    ) by {
        assert(touch(t.model, path[k], path[k + 1]));
        let edge = choose|edge: EdgeId| #[trigger]
            bounds_face(t.model, path[k], edge) && bounds_face(t.model, path[k + 1], edge);
        lemma_same_bounds(t.model, after, path[k], edge);
        lemma_same_bounds(t.model, after, path[k + 1], edge);
    }
    assert(leads_on(after, path));
}

/// What bounds a face goes by loops and co-edges alone.
proof fn lemma_same_bounds(a: Model, b: Model, face: FaceId, edge: EdgeId)
    requires
        a.coedges == b.coedges,
        a.loops == b.loops,
        bounds_face(a, face, edge),
    ensures
        bounds_face(b, face, edge),
{
    let c = choose|c: CoEdgeId| #[trigger]
        a.coedges.dom().contains(c) && a.coedges[c].edge == edge && a.loops.dom().contains(
            a.coedges[c].loop_id,
        ) && a.loops[a.coedges[c].loop_id].face == face;
    assert(b.coedges.dom().contains(c));
}

} // verus!
