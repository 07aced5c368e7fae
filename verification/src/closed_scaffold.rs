//! A fused scaffold is closed: every edge has exactly two users.

use vstd::prelude::*;

use crate::assembly::{
    circle_use_key, face_made, mark_uses, marks_uses, path_key, piece_use, quarter, tube_inner,
    window_mid, window_ring, window_uses, AsmState, CircleUse, EdgeKey, Mark, UseView, Window,
};
use crate::brep::Model;
use crate::entities::FaceNormal;
use crate::ids::{EdgeId, FaceId, ShellId, SolidId};
use crate::scaffold::{
    cap_face, elbow_face, elbow_faces, faces_made, fresh, group_in, group_out, grouped, imprints,
    law_windows_are_cut_twice, leg_base, leg_face, leg_faces, marks_of, scaffold_faces,
    scaffold_fused, times_cut, window_of, windows_of, AsmFace, Crossing, FilamentSheet, Imprint,
    Member, Nearness,
};
use crate::scaffold_laws::{
    all_marks, circle_uses, circles_in, circles_in_all, counted, elbow_marks, joined_up,
    law_rims_are_shared_by_two, leg_marks, lemma_base_step, lemma_marks_are_cuts,
    lemma_marks_known, mark_count, numbered, present,
};
use crate::scalar::Real;
use crate::senses::{
    along, law_run_both_ways, law_uses_keep_their_direction, lemma_nothing_is_turned,
    oriented_right, runs_from, times_from,
};
use crate::solid::assembled;
use crate::step::GridKey;
use crate::watertight::{
    all_uses, edge_known, edge_under, key_of, law_nothing_is_made_at_first,
    law_used_twice_is_closed, law_uses_become_coedges, lemma_some_use, tallied, times_used, users,
    CurveKey,
};

verus! {

/// All uses of several faces, face after face.
pub open spec fn uses_of(faces: Seq<AsmFace>) -> Seq<UseView>
    decreases faces.len(),
{
    if faces.len() == 0 {
        Seq::empty()
    } else {
        uses_of(faces.drop_last()) + faces.last().outer + all_uses(faces.last().inner)
    }
}

/// Assembling faces adds, for each of their uses, one co-edge on the one edge
/// of the curve that the use runs along.
pub proof fn law_faces_become_coedges(
    before: Model,
    t: AsmState,
    faces: Seq<AsmFace>,
    ids: Seq<FaceId>,
)
    requires
        before.coedges.dom().finite(),
        faces_made(fresh(before), t, faces, ids),
    ensures
        tallied(before, t, uses_of(faces)),
    decreases faces.len(),
{
    if faces.len() == 0 {
        law_nothing_is_made_at_first(before);
    } else {
        let face = faces.last();
        let m = choose|m: AsmState|
            faces_made(fresh(before), m, faces.drop_last(), ids.drop_last())
                && #[trigger] face_made(
                m,
                t,
                face.geom,
                FaceNormal::Same,
                face.extent,
                face.outer,
                face.inner,
                ids.last(),
            );
        law_faces_become_coedges(before, m, faces.drop_last(), ids.drop_last());
        law_uses_become_coedges(
            before,
            m,
            t,
            uses_of(faces.drop_last()),
            face.geom,
            FaceNormal::Same,
            face.extent,
            face.outer,
            face.inner,
            ids.last(),
        );
    }
}

// ── Counting ────────────────────────────────────────────────────────────────

proof fn lemma_times_add(a: Seq<UseView>, b: Seq<UseView>, key: CurveKey)
    ensures
        times_used(a + b, key) == times_used(a, key) + times_used(b, key),
    decreases b.len(),
{
    if b.len() == 0 {
        assert(a + b =~= a);
    } else {
        lemma_times_add(a, b.drop_last(), key);
        assert((a + b).drop_last() =~= a + b.drop_last());
    }
}

proof fn lemma_times_push(a: Seq<UseView>, u: UseView, key: CurveKey)
    ensures
        times_used(a.push(u), key) == times_used(a, key) + (if key_of(u) == key {
            1nat
        } else {
            0
        }),
{
    assert(a.push(u).drop_last() =~= a);
}

proof fn lemma_times_one(u: UseView, key: CurveKey)
    ensures
        times_used(seq![u], key) == (if key_of(u) == key {
            1nat
        } else {
            0
        }),
{
    assert(seq![u].drop_last() =~= Seq::empty());
    assert(times_used(seq![u].drop_last(), key) == 0);
}

proof fn lemma_all_uses_add(a: Seq<Seq<UseView>>, b: Seq<Seq<UseView>>)
    ensures
        all_uses(a + b) == all_uses(a) + all_uses(b),
    decreases b.len(),
{
    if b.len() == 0 {
        assert(a + b =~= a);
        assert(all_uses(a) + all_uses(b) =~= all_uses(a));
    } else {
        lemma_all_uses_add(a, b.drop_last());
        assert((a + b).drop_last() =~= a + b.drop_last());
        assert(all_uses(a) + all_uses(b.drop_last()) + b.last() =~= all_uses(a) + (all_uses(
            b.drop_last(),
        ) + b.last()));
    }
}

proof fn lemma_uses_add(a: Seq<AsmFace>, b: Seq<AsmFace>)
    ensures
        uses_of(a + b) == uses_of(a) + uses_of(b),
    decreases b.len(),
{
    if b.len() == 0 {
        assert(a + b =~= a);
        assert(uses_of(a) + uses_of(b) =~= uses_of(a));
    } else {
        lemma_uses_add(a, b.drop_last());
        assert((a + b).drop_last() =~= a + b.drop_last());
        let x = uses_of(a);
        let y = uses_of(b.drop_last());
        let o = b.last().outer;
        let i = all_uses(b.last().inner);
        assert(x + y + o + i =~= x + (y + o + i));
    }
}

proof fn lemma_uses_push(faces: Seq<AsmFace>, face: AsmFace)
    ensures
        uses_of(faces.push(face)) == uses_of(faces) + face.outer + all_uses(face.inner),
{
    assert(faces.push(face).drop_last() =~= faces);
}

/// The uses of a tube: its two circles and its windows.
proof fn lemma_tube_uses(near: CircleUse, far: CircleUse, crossings: Seq<Window>, marks: Seq<Mark>)
    ensures
        seq![UseView::Circle(near)] + all_uses(tube_inner(far, crossings, marks)) == seq![
            UseView::Circle(near),
            UseView::Circle(far),
        ] + all_uses(marks_uses(crossings, marks, marks.len() as int)),
{
    let first = seq![seq![UseView::Circle(far)]];
    let rest = marks_uses(crossings, marks, marks.len() as int);
    lemma_all_uses_add(first, rest);
    assert(first.drop_last() =~= Seq::empty());
    assert(all_uses(first.drop_last()) =~= Seq::empty());
    assert(all_uses(first) =~= seq![UseView::Circle(far)]);
    assert(seq![UseView::Circle(near)] + (all_uses(first) + all_uses(rest)) =~= seq![
        UseView::Circle(near),
        UseView::Circle(far),
    ] + all_uses(rest));
}

// ── Windows ─────────────────────────────────────────────────────────────────

/// The key of piece `j` of a window.
pub open spec fn piece_key(window: Window, j: int) -> EdgeKey {
    let piece = quarter(window_ring(window), j);
    path_key(piece[0].key, piece.last().key, window_mid(window, j), window.id)
}

/// Whether piece `j` of a window is a path.
pub open spec fn has_piece(window: Window, j: int) -> bool {
    quarter(window_ring(window), j).len() >= 2
}

/// Whether the pieces of a window are different curves.
pub open spec fn pieces_differ(window: Window) -> bool {
    forall|i: int, j: int|
        0 <= i < j < 4 && #[trigger] has_piece(window, i) && #[trigger] has_piece(window, j)
            ==> piece_key(window, i) != piece_key(window, j)
}

/// One for the piece of a window with a key.
spec fn piece_hit(window: Window, j: int, key: EdgeKey) -> nat {
    if has_piece(window, j) && piece_key(window, j) == key {
        1
    } else {
        0
    }
}

/// How many pieces of a window have a key.
spec fn pieces_with(window: Window, key: EdgeKey) -> nat {
    piece_hit(window, 0, key) + piece_hit(window, 1, key) + piece_hit(window, 2, key) + piece_hit(
        window,
        3,
        key,
    )
}

proof fn lemma_window_step(window: Window, against: bool, n: int, key: EdgeKey)
    requires
        1 <= n <= 4,
    ensures
        times_used(window_uses(window, against, n), CurveKey::Path(key)) == times_used(
            window_uses(window, against, n - 1),
            CurveKey::Path(key),
        ) + piece_hit(
            window,
            if against {
                4 - n
            } else {
                n - 1
            },
            key,
        ),
{
    let so_far = window_uses(window, against, n - 1);
    let k = if against {
        4 - n
    } else {
        n - 1
    };
    let piece = quarter(window_ring(window), k);
    if piece.len() >= 2 {
        let way = if against {
            piece.reverse()
        } else {
            piece
        };
        let u = piece_use(way, window_mid(window, k), window.id);
        lemma_times_push(so_far, u, CurveKey::Path(key));
        assert(piece.reverse()[0] == piece.last());
        assert(piece.reverse().last() == piece[0]);
        assert(key_of(u) == CurveKey::Path(piece_key(window, k)));
    }
}

proof fn lemma_window_times(window: Window, against: bool, key: EdgeKey)
    ensures
        times_used(window_uses(window, against, 4), CurveKey::Path(key)) == pieces_with(
            window,
            key,
        ),
        window.id != key.group ==> pieces_with(window, key) == 0,
{
    lemma_window_step(window, against, 1, key);
    lemma_window_step(window, against, 2, key);
    lemma_window_step(window, against, 3, key);
    lemma_window_step(window, against, 4, key);
    assert(window_uses(window, against, 0) =~= Seq::empty());
    assert(times_used(window_uses(window, against, 0), CurveKey::Path(key)) == 0);
}

proof fn lemma_marks_times(crossings: Seq<Window>, marks: Seq<Mark>, k: int, key: EdgeKey)
    requires
        0 <= k <= marks.len(),
        numbered(crossings),
        key.group < crossings.len(),
        forall|i: int| 0 <= i < marks.len() ==> (#[trigger] marks[i]).crossing < crossings.len(),
    ensures
        times_used(all_uses(marks_uses(crossings, marks, k)), CurveKey::Path(key)) == pieces_with(
            crossings[key.group as int],
            key,
        ) * mark_count(marks.take(k), key.group as int),
    decreases k,
{
    let p = pieces_with(crossings[key.group as int], key);
    let g = key.group as int;
    if k > 0 {
        let so_far = marks_uses(crossings, marks, k - 1);
        let all = marks_uses(crossings, marks, k);
        lemma_marks_times(crossings, marks, k - 1, key);
        assert(all.drop_last() =~= so_far);
        let mark = marks[k - 1];
        let window = crossings[mark.crossing as int];
        let against = (Real { bits: 0 }).below(mark.facing);
        lemma_window_times(window, against, key);
        lemma_times_add(all_uses(so_far), all.last(), CurveKey::Path(key));
        let few = mark_count(marks.take(k - 1), g);
        assert(marks.take(k).drop_last() =~= marks.take(k - 1));
        assert(window.id == mark.crossing);
        if mark.crossing == g {
            assert(p * (few + 1) == p * few + p) by (nonlinear_arith);
        }
    } else {
        assert(mark_count(marks.take(0), g) == 0);
        assert(p * 0 == 0) by (nonlinear_arith);
        assert(all_uses(marks_uses(crossings, marks, 0)) =~= Seq::empty());
    }
}

/// How often a tube uses a path.
proof fn lemma_tube_times(
    near: CircleUse,
    far: CircleUse,
    crossings: Seq<Window>,
    marks: Seq<Mark>,
    key: EdgeKey,
)
    requires
        numbered(crossings),
        key.group < crossings.len(),
        forall|i: int| 0 <= i < marks.len() ==> (#[trigger] marks[i]).crossing < crossings.len(),
    ensures
        times_used(
            seq![UseView::Circle(near)] + all_uses(tube_inner(far, crossings, marks)),
            CurveKey::Path(key),
        ) == pieces_with(crossings[key.group as int], key) * mark_count(marks, key.group as int),
{
    let rims = seq![UseView::Circle(near), UseView::Circle(far)];
    let rest = all_uses(marks_uses(crossings, marks, marks.len() as int));
    lemma_tube_uses(near, far, crossings, marks);
    lemma_times_add(rims, rest, CurveKey::Path(key));
    lemma_marks_times(crossings, marks, marks.len() as int, key);
    assert(marks.take(marks.len() as int) =~= marks);
    lemma_times_one(UseView::Circle(near), CurveKey::Path(key));
    lemma_times_push(seq![UseView::Circle(near)], UseView::Circle(far), CurveKey::Path(key));
    assert(rims =~= seq![UseView::Circle(near)].push(UseView::Circle(far)));
}

/// One more face that is a tube.
proof fn lemma_push_tube(
    faces: Seq<AsmFace>,
    face: AsmFace,
    near: CircleUse,
    far: CircleUse,
    crossings: Seq<Window>,
    marks: Seq<Mark>,
    key: EdgeKey,
)
    requires
        numbered(crossings),
        key.group < crossings.len(),
        forall|i: int| 0 <= i < marks.len() ==> (#[trigger] marks[i]).crossing < crossings.len(),
        face.outer == seq![UseView::Circle(near)],
        face.inner == tube_inner(far, crossings, marks),
    ensures
        times_used(uses_of(faces.push(face)), CurveKey::Path(key)) == times_used(
            uses_of(faces),
            CurveKey::Path(key),
        ) + pieces_with(crossings[key.group as int], key) * mark_count(marks, key.group as int),
{
    lemma_uses_push(faces, face);
    lemma_tube_times(near, far, crossings, marks, key);
    let done = uses_of(faces);
    let tube = face.outer + all_uses(face.inner);
    assert(done + face.outer + all_uses(face.inner) =~= done + tube);
    lemma_times_add(done, tube, CurveKey::Path(key));
}

/// One more face that is a disk.
proof fn lemma_push_disk(faces: Seq<AsmFace>, face: AsmFace, rim: CircleUse, key: EdgeKey)
    requires
        face.outer == seq![UseView::Circle(rim)],
        face.inner == Seq::<Seq<UseView>>::empty(),
    ensures
        times_used(uses_of(faces.push(face)), CurveKey::Path(key)) == times_used(
            uses_of(faces),
            CurveKey::Path(key),
        ),
{
    lemma_uses_push(faces, face);
    lemma_times_one(UseView::Circle(rim), CurveKey::Path(key));
    lemma_times_add(uses_of(faces), face.outer, CurveKey::Path(key));
    assert(uses_of(faces) + face.outer + all_uses(face.inner) =~= uses_of(faces) + face.outer);
}

proof fn lemma_leg_times(
    sheet: FilamentSheet,
    f: int,
    base: int,
    crossings: Seq<Window>,
    log: Seq<Imprint>,
    k: int,
    key: EdgeKey,
)
    requires
        0 <= k <= sheet.legs@.len(),
        numbered(crossings),
        key.group < crossings.len(),
        forall|i: int|
            0 <= i < log.len() ==> (#[trigger] log[i]).mark.crossing < crossings.len(),
    ensures
        times_used(
            uses_of(leg_faces(sheet, f, base, crossings, log, k)),
            CurveKey::Path(key),
        ) == pieces_with(crossings[key.group as int], key) * leg_marks(
            log,
            f,
            k,
            key.group as int,
        ),
    decreases k,
{
    let p = pieces_with(crossings[key.group as int], key);
    if k > 0 {
        let j = k - 1;
        let leg = sheet.legs@[j];
        let so_far = leg_faces(sheet, f, base, crossings, log, j);
        lemma_leg_times(sheet, f, base, crossings, log, j, key);
        let rim_in = grouped(leg.rim_in, group_in(base, j));
        let rim_out = grouped(leg.rim_out, group_out(base, j));
        let tube = leg_face(leg, f, base, j, crossings, log);
        let member = Member::Leg { f: f as usize, i: j as usize };
        let marks = marks_of(log, member);
        lemma_marks_known(log, member, crossings.len() as int);
        lemma_push_tube(so_far, tube, rim_in, rim_out, crossings, marks, key);
        let list = so_far.push(tube);
        let cap_in = cap_face(leg.cap_in, rim_in);
        let cap_out = cap_face(leg.cap_out, rim_out);
        lemma_push_disk(list, cap_in, rim_in, key);
        lemma_push_disk(list.push(cap_in), cap_out, rim_out, key);
        lemma_push_disk(list, cap_out, rim_out, key);
        let few = leg_marks(log, f, j, key.group as int);
        let more = mark_count(marks, key.group as int);
        assert(p * (few + more) == p * few + p * more) by (nonlinear_arith);
    } else {
        assert(p * 0 == 0) by (nonlinear_arith);
    }
}

proof fn lemma_elbow_times(
    sheet: FilamentSheet,
    f: int,
    base: int,
    crossings: Seq<Window>,
    log: Seq<Imprint>,
    k: int,
    key: EdgeKey,
)
    requires
        0 <= k <= sheet.elbows@.len(),
        numbered(crossings),
        key.group < crossings.len(),
        forall|i: int|
            0 <= i < log.len() ==> (#[trigger] log[i]).mark.crossing < crossings.len(),
    ensures
        times_used(
            uses_of(elbow_faces(sheet, f, base, crossings, log, k)),
            CurveKey::Path(key),
        ) == pieces_with(crossings[key.group as int], key) * elbow_marks(
            log,
            f,
            k,
            key.group as int,
        ),
    decreases k,
{
    let p = pieces_with(crossings[key.group as int], key);
    if k > 0 {
        let j = k - 1;
        let so_far = elbow_faces(sheet, f, base, crossings, log, j);
        lemma_elbow_times(sheet, f, base, crossings, log, j, key);
        let from = grouped(sheet.legs@[j].rim_out, group_out(base, j));
        let to = grouped(sheet.legs@[j + 1].rim_in, group_in(base, j + 1));
        let member = Member::Elbow { f: f as usize, i: j as usize };
        let marks = marks_of(log, member);
        lemma_marks_known(log, member, crossings.len() as int);
        lemma_push_tube(
            so_far,
            elbow_face(sheet, f, base, j, crossings, log),
            from,
            to,
            crossings,
            marks,
            key,
        );
        let few = elbow_marks(log, f, j, key.group as int);
        let more = mark_count(marks, key.group as int);
        assert(p * (few + more) == p * few + p * more) by (nonlinear_arith);
    } else {
        assert(p * 0 == 0) by (nonlinear_arith);
    }
}

proof fn lemma_scaffold_times(
    sheets: Seq<FilamentSheet>,
    crossings: Seq<Window>,
    log: Seq<Imprint>,
    k: int,
    key: EdgeKey,
)
    requires
        0 <= k <= sheets.len(),
        numbered(crossings),
        key.group < crossings.len(),
        forall|i: int|
            0 <= i < log.len() ==> (#[trigger] log[i]).mark.crossing < crossings.len(),
    ensures
        times_used(
            uses_of(scaffold_faces(sheets, crossings, log, k)),
            CurveKey::Path(key),
        ) == pieces_with(crossings[key.group as int], key) * all_marks(
            sheets,
            log,
            k,
            key.group as int,
        ),
    decreases k,
{
    let p = pieces_with(crossings[key.group as int], key);
    if k > 0 {
        let f = k - 1;
        let base = leg_base(sheets, f);
        let sheet = sheets[f];
        lemma_scaffold_times(sheets, crossings, log, f, key);
        let done = scaffold_faces(sheets, crossings, log, f);
        let n = sheet.legs@.len() as int;
        let m = sheet.elbows@.len() as int;
        let legs = leg_faces(sheet, f, base, crossings, log, n);
        let elbows = elbow_faces(sheet, f, base, crossings, log, m);
        lemma_leg_times(sheet, f, base, crossings, log, n, key);
        lemma_elbow_times(sheet, f, base, crossings, log, m, key);
        lemma_uses_add(done, legs);
        lemma_uses_add(done + legs, elbows);
        lemma_times_add(uses_of(done), uses_of(legs), CurveKey::Path(key));
        lemma_times_add(uses_of(done + legs), uses_of(elbows), CurveKey::Path(key));
        let a = all_marks(sheets, log, f, key.group as int);
        let b = leg_marks(log, f, n, key.group as int);
        let c = elbow_marks(log, f, m, key.group as int);
        assert(p * (a + b + c) == p * a + p * b + p * c) by (nonlinear_arith);
    } else {
        assert(p * 0 == 0) by (nonlinear_arith);
    }
}

// ── What is used ────────────────────────────────────────────────────────────

/// The circle at the start or the end of leg `i` of filament `f`.
pub open spec fn rim_at(sheets: Seq<FilamentSheet>, f: int, i: int, end: bool) -> CircleUse {
    let base = leg_base(sheets, f);
    if end {
        grouped(sheets[f].legs@[i].rim_out, group_out(base, i))
    } else {
        grouped(sheets[f].legs@[i].rim_in, group_in(base, i))
    }
}

/// Whether a circle is at an end of some leg of the first `k` filaments.
pub open spec fn is_rim(sheets: Seq<FilamentSheet>, k: int, c: CircleUse) -> bool {
    exists|f: int, i: int, end: bool|
        0 <= f < k && 0 <= i < sheets[f].legs@.len() && c == #[trigger] rim_at(sheets, f, i, end)
}

/// Whether a curve is a piece of some window.
pub open spec fn is_piece(crossings: Seq<Window>, key: CurveKey) -> bool {
    exists|x: int, j: int|
        0 <= x < crossings.len() && 0 <= j < 4 && #[trigger] has_piece(crossings[x], j) && key
            == CurveKey::Path(piece_key(crossings[x], j))
}

/// Whether a use is of the end of a leg or of a piece of a window.
pub open spec fn use_known(
    sheets: Seq<FilamentSheet>,
    crossings: Seq<Window>,
    k: int,
    u: UseView,
) -> bool {
    match u {
        UseView::Circle(c) => is_rim(sheets, k, c),
        UseView::Path { points, start, end, mid, group } => is_piece(crossings, key_of(u)),
    }
}

/// Whether all of some uses are of ends of legs or of pieces of windows.
pub open spec fn all_known(
    sheets: Seq<FilamentSheet>,
    crossings: Seq<Window>,
    k: int,
    uses: Seq<UseView>,
) -> bool {
    forall|i: int| 0 <= i < uses.len() ==> use_known(sheets, crossings, k, #[trigger] uses[i])
}

proof fn lemma_known_add(
    sheets: Seq<FilamentSheet>,
    crossings: Seq<Window>,
    k: int,
    a: Seq<UseView>,
    b: Seq<UseView>,
)
    requires
        all_known(sheets, crossings, k, a),
        all_known(sheets, crossings, k, b),
    ensures
        all_known(sheets, crossings, k, a + b),
{
    assert forall|i: int| 0 <= i < (a + b).len() implies use_known(
        sheets,
        crossings,
        k,
        #[trigger] (a + b)[i],
    ) by {
        if i < a.len() {
            assert((a + b)[i] == a[i]);
        } else {
            assert((a + b)[i] == b[i - a.len()]);
        }
    }
}

proof fn lemma_known_window(
    sheets: Seq<FilamentSheet>,
    crossings: Seq<Window>,
    k: int,
    x: int,
    against: bool,
    n: int,
)
    requires
        0 <= n <= 4,
        0 <= x < crossings.len(),
    ensures
        all_known(sheets, crossings, k, window_uses(crossings[x], against, n)),
    decreases n,
{
    if n > 0 {
        lemma_known_window(sheets, crossings, k, x, against, n - 1);
        let window = crossings[x];
        let so_far = window_uses(window, against, n - 1);
        let all = window_uses(window, against, n);
        let j = if against {
            4 - n
        } else {
            n - 1
        };
        let piece = quarter(window_ring(window), j);
        if piece.len() >= 2 {
            let way = if against {
                piece.reverse()
            } else {
                piece
            };
            let u = piece_use(way, window_mid(window, j), window.id);
            assert(piece.reverse()[0] == piece.last());
            assert(piece.reverse().last() == piece[0]);
            assert(has_piece(crossings[x], j));
            assert(key_of(u) == CurveKey::Path(piece_key(crossings[x], j)));
            assert(use_known(sheets, crossings, k, u));
            assert(all =~= so_far.push(u));
            assert forall|i: int| 0 <= i < all.len() implies use_known(
                sheets,
                crossings,
                k,
                #[trigger] all[i],
            ) by {
                if i < so_far.len() {
                    assert(all[i] == so_far[i]);
                }
            }
        }
    }
}

proof fn lemma_known_marks(
    sheets: Seq<FilamentSheet>,
    crossings: Seq<Window>,
    k: int,
    marks: Seq<Mark>,
    n: int,
)
    requires
        0 <= n <= marks.len(),
        forall|i: int| 0 <= i < marks.len() ==> (#[trigger] marks[i]).crossing < crossings.len(),
    ensures
        all_known(sheets, crossings, k, all_uses(marks_uses(crossings, marks, n))),
    decreases n,
{
    if n > 0 {
        let so_far = marks_uses(crossings, marks, n - 1);
        let all = marks_uses(crossings, marks, n);
        lemma_known_marks(sheets, crossings, k, marks, n - 1);
        assert(all.drop_last() =~= so_far);
        let mark = marks[n - 1];
        let against = (Real { bits: 0 }).below(mark.facing);
        lemma_known_window(sheets, crossings, k, mark.crossing as int, against, 4);
        lemma_known_add(sheets, crossings, k, all_uses(so_far), all.last());
    }
}

proof fn lemma_known_tube(
    sheets: Seq<FilamentSheet>,
    crossings: Seq<Window>,
    k: int,
    near: CircleUse,
    far: CircleUse,
    marks: Seq<Mark>,
)
    requires
        is_rim(sheets, k, near),
        is_rim(sheets, k, far),
        forall|i: int| 0 <= i < marks.len() ==> (#[trigger] marks[i]).crossing < crossings.len(),
    ensures
        all_known(
            sheets,
            crossings,
            k,
            seq![UseView::Circle(near)] + all_uses(tube_inner(far, crossings, marks)),
        ),
{
    lemma_tube_uses(near, far, crossings, marks);
    lemma_known_marks(sheets, crossings, k, marks, marks.len() as int);
    lemma_known_add(
        sheets,
        crossings,
        k,
        seq![UseView::Circle(near), UseView::Circle(far)],
        all_uses(marks_uses(crossings, marks, marks.len() as int)),
    );
}

/// One more face whose uses are known.
proof fn lemma_known_push(
    sheets: Seq<FilamentSheet>,
    crossings: Seq<Window>,
    k: int,
    faces: Seq<AsmFace>,
    face: AsmFace,
)
    requires
        all_known(sheets, crossings, k, uses_of(faces)),
        all_known(sheets, crossings, k, face.outer + all_uses(face.inner)),
    ensures
        all_known(sheets, crossings, k, uses_of(faces.push(face))),
{
    lemma_uses_push(faces, face);
    lemma_known_add(sheets, crossings, k, uses_of(faces), face.outer + all_uses(face.inner));
    assert(uses_of(faces) + face.outer + all_uses(face.inner) =~= uses_of(faces) + (face.outer
        + all_uses(face.inner)));
}

/// A disk over the end of a leg.
proof fn lemma_known_disk(
    sheets: Seq<FilamentSheet>,
    crossings: Seq<Window>,
    k: int,
    face: AsmFace,
    rim: CircleUse,
)
    requires
        is_rim(sheets, k, rim),
        face.outer == seq![UseView::Circle(rim)],
        face.inner == Seq::<Seq<UseView>>::empty(),
    ensures
        all_known(sheets, crossings, k, face.outer + all_uses(face.inner)),
{
    assert(face.outer + all_uses(face.inner) =~= seq![UseView::Circle(rim)]);
}

proof fn lemma_known_legs(
    sheets: Seq<FilamentSheet>,
    f: int,
    crossings: Seq<Window>,
    log: Seq<Imprint>,
    k: int,
    all: int,
)
    requires
        0 <= f < all <= sheets.len(),
        0 <= k <= sheets[f].legs@.len(),
        forall|i: int|
            0 <= i < log.len() ==> (#[trigger] log[i]).mark.crossing < crossings.len(),
    ensures
        all_known(
            sheets,
            crossings,
            all,
            uses_of(leg_faces(sheets[f], f, leg_base(sheets, f), crossings, log, k)),
        ),
    decreases k,
{
    let sheet = sheets[f];
    let base = leg_base(sheets, f);
    if k > 0 {
        let j = k - 1;
        let leg = sheet.legs@[j];
        let so_far = leg_faces(sheet, f, base, crossings, log, j);
        lemma_known_legs(sheets, f, crossings, log, j, all);
        let rim_in = rim_at(sheets, f, j, false);
        let rim_out = rim_at(sheets, f, j, true);
        assert(is_rim(sheets, all, rim_in));
        assert(is_rim(sheets, all, rim_out));
        let tube = leg_face(leg, f, base, j, crossings, log);
        let member = Member::Leg { f: f as usize, i: j as usize };
        lemma_marks_known(log, member, crossings.len() as int);
        lemma_known_tube(sheets, crossings, all, rim_in, rim_out, marks_of(log, member));
        lemma_known_push(sheets, crossings, all, so_far, tube);
        let list = so_far.push(tube);
        let cap_in = cap_face(leg.cap_in, rim_in);
        let cap_out = cap_face(leg.cap_out, rim_out);
        lemma_known_disk(sheets, crossings, all, cap_in, rim_in);
        lemma_known_disk(sheets, crossings, all, cap_out, rim_out);
        lemma_known_push(sheets, crossings, all, list, cap_in);
        lemma_known_push(sheets, crossings, all, list.push(cap_in), cap_out);
        lemma_known_push(sheets, crossings, all, list, cap_out);
    }
}

proof fn lemma_known_elbows(
    sheets: Seq<FilamentSheet>,
    f: int,
    crossings: Seq<Window>,
    log: Seq<Imprint>,
    k: int,
    all: int,
)
    requires
        0 <= f < all <= sheets.len(),
        0 <= k <= sheets[f].elbows@.len(),
        sheets[f].elbows@.len() + 1 == sheets[f].legs@.len(),
        forall|i: int|
            0 <= i < log.len() ==> (#[trigger] log[i]).mark.crossing < crossings.len(),
    ensures
        all_known(
            sheets,
            crossings,
            all,
            uses_of(elbow_faces(sheets[f], f, leg_base(sheets, f), crossings, log, k)),
        ),
    decreases k,
{
    let sheet = sheets[f];
    let base = leg_base(sheets, f);
    if k > 0 {
        let j = k - 1;
        let so_far = elbow_faces(sheet, f, base, crossings, log, j);
        lemma_known_elbows(sheets, f, crossings, log, j, all);
        let from = rim_at(sheets, f, j, true);
        let to = rim_at(sheets, f, j + 1, false);
        assert(is_rim(sheets, all, from));
        assert(is_rim(sheets, all, to));
        let member = Member::Elbow { f: f as usize, i: j as usize };
        lemma_marks_known(log, member, crossings.len() as int);
        lemma_known_tube(sheets, crossings, all, from, to, marks_of(log, member));
        lemma_known_push(
            sheets,
            crossings,
            all,
            so_far,
            elbow_face(sheet, f, base, j, crossings, log),
        );
    }
}

proof fn lemma_known_scaffold(
    sheets: Seq<FilamentSheet>,
    crossings: Seq<Window>,
    log: Seq<Imprint>,
    k: int,
    all: int,
)
    requires
        0 <= k <= all <= sheets.len(),
        joined_up(sheets),
        forall|i: int|
            0 <= i < log.len() ==> (#[trigger] log[i]).mark.crossing < crossings.len(),
    ensures
        all_known(sheets, crossings, all, uses_of(scaffold_faces(sheets, crossings, log, k))),
    decreases k,
{
    if k > 0 {
        let f = k - 1;
        let sheet = sheets[f];
        assert(sheets[f].elbows@.len() + 1 == sheets[f].legs@.len());
        lemma_known_scaffold(sheets, crossings, log, f, all);
        let base = leg_base(sheets, f);
        let n = sheet.legs@.len() as int;
        let m = sheet.elbows@.len() as int;
        let done = scaffold_faces(sheets, crossings, log, f);
        let legs = leg_faces(sheet, f, base, crossings, log, n);
        let elbows = elbow_faces(sheet, f, base, crossings, log, m);
        lemma_known_legs(sheets, f, crossings, log, n, all);
        lemma_known_elbows(sheets, f, crossings, log, m, all);
        lemma_uses_add(done, legs);
        lemma_uses_add(done + legs, elbows);
        lemma_known_add(sheets, crossings, all, uses_of(done), uses_of(legs));
        lemma_known_add(sheets, crossings, all, uses_of(done + legs), uses_of(elbows));
    }
}

// ── Rims ────────────────────────────────────────────────────────────────────

proof fn lemma_circles_add(a: Seq<UseView>, b: Seq<UseView>, group: u32)
    ensures
        circles_in(a + b, group) == circles_in(a, group) + circles_in(b, group),
    decreases b.len(),
{
    if b.len() == 0 {
        assert(a + b =~= a);
    } else {
        lemma_circles_add(a, b.drop_last(), group);
        assert((a + b).drop_last() =~= a + b.drop_last());
    }
}

proof fn lemma_circles_all(all: Seq<Seq<UseView>>, group: u32)
    ensures
        circles_in(all_uses(all), group) == circles_in_all(all, group),
    decreases all.len(),
{
    if all.len() > 0 {
        lemma_circles_all(all.drop_last(), group);
        lemma_circles_add(all_uses(all.drop_last()), all.last(), group);
    }
}

proof fn lemma_circles_faces(faces: Seq<AsmFace>, group: u32)
    ensures
        circles_in(uses_of(faces), group) == circle_uses(faces, group),
    decreases faces.len(),
{
    if faces.len() > 0 {
        lemma_circles_faces(faces.drop_last(), group);
        let done = uses_of(faces.drop_last());
        lemma_circles_all(faces.last().inner, group);
        lemma_circles_add(done, faces.last().outer, group);
        lemma_circles_add(done + faces.last().outer, all_uses(faces.last().inner), group);
    }
}

/// Where all circles of a group are the same, as many uses are of that circle
/// as are in the group.
proof fn lemma_group_is_circle(uses: Seq<UseView>, c: CircleUse)
    requires
        forall|i: int|
            0 <= i < uses.len() ==> (#[trigger] uses[i] matches UseView::Circle(d) ==> d.group
                == c.group ==> d == c),
    ensures
        times_used(uses, CurveKey::Circle(circle_use_key(c))) == circles_in(uses, c.group),
    decreases uses.len(),
{
    if uses.len() > 0 {
        let u = uses[uses.len() - 1];
        assert(u == uses.last());
        assert forall|i: int| 0 <= i < uses.drop_last().len() implies (
        #[trigger] uses.drop_last()[i] matches UseView::Circle(d) ==> d.group == c.group ==> d
            == c) by {
            assert(uses.drop_last()[i] == uses[i]);
        }
        lemma_group_is_circle(uses.drop_last(), c);
    }
}

proof fn lemma_base_grows(sheets: Seq<FilamentSheet>, a: int, b: int)
    requires
        0 <= a <= b,
    ensures
        0 <= leg_base(sheets, a) <= leg_base(sheets, b),
    decreases b - a,
{
    lemma_base_step(sheets, a);
    if a < b {
        lemma_base_grows(sheets, a + 1, b);
    }
}

/// Ends of legs with the same group are the same.
proof fn lemma_rims_are_told_apart(sheets: Seq<FilamentSheet>, c: CircleUse, d: CircleUse)
    requires
        2 * leg_base(sheets, sheets.len() as int) <= u32::MAX,
        is_rim(sheets, sheets.len() as int, c),
        is_rim(sheets, sheets.len() as int, d),
        c.group == d.group,
    ensures
        c == d,
        c.group < 2 * leg_base(sheets, sheets.len() as int),
{
    let n = sheets.len() as int;
    let (f, i, x) = choose|f: int, i: int, x: bool|
        0 <= f < n && 0 <= i < sheets[f].legs@.len() && c == #[trigger] rim_at(sheets, f, i, x);
    let (g, j, y) = choose|g: int, j: int, y: bool|
        0 <= g < n && 0 <= j < sheets[g].legs@.len() && d == #[trigger] rim_at(sheets, g, j, y);
    lemma_base_step(sheets, f);
    lemma_base_step(sheets, g);
    lemma_base_grows(sheets, f + 1, n);
    lemma_base_grows(sheets, g + 1, n);
    let p = leg_base(sheets, f) + i;
    let q = leg_base(sheets, g) + j;
    assert(c.group == 2 * p + (if x {
        1int
    } else {
        0
    }));
    assert(d.group == 2 * q + (if y {
        1int
    } else {
        0
    }));
    assert(p == q && x == y);
    if f < g {
        lemma_base_grows(sheets, f + 1, g);
    } else if g < f {
        lemma_base_grows(sheets, g + 1, f);
    }
}

// ── Closed ──────────────────────────────────────────────────────────────────

/// Every curve that the faces of a scaffold use, they use exactly twice.
pub proof fn law_scaffold_uses_curves_twice(
    sheets: Seq<FilamentSheet>,
    crossings: Seq<Window>,
    log: Seq<Imprint>,
    i: int,
)
    requires
        joined_up(sheets),
        counted(sheets),
        2 * leg_base(sheets, sheets.len() as int) <= u32::MAX,
        numbered(crossings),
        crossings.len() <= u32::MAX,
        forall|x: int| 0 <= x < crossings.len() ==> pieces_differ(#[trigger] crossings[x]),
        forall|x: int| 0 <= x < crossings.len() ==> #[trigger] times_cut(log, x) == 2,
        forall|m: int|
            0 <= m < log.len() ==> (#[trigger] log[m]).mark.crossing < crossings.len() && present(
                sheets,
                log[m].member,
                sheets.len() as int,
            ),
        0 <= i < uses_of(scaffold_faces(sheets, crossings, log, sheets.len() as int)).len(),
    ensures
        ({
            let uses = uses_of(scaffold_faces(sheets, crossings, log, sheets.len() as int));
            times_used(uses, key_of(uses[i])) == 2
        }),
{
    let n = sheets.len() as int;
    let faces = scaffold_faces(sheets, crossings, log, n);
    let uses = uses_of(faces);
    lemma_known_scaffold(sheets, crossings, log, n, n);
    assert(use_known(sheets, crossings, n, uses[i]));
    match uses[i] {
        UseView::Circle(c) => {
            assert forall|j: int| 0 <= j < uses.len() implies (#[trigger] uses[j] matches
            UseView::Circle(d) ==> d.group == c.group ==> d == c) by {
                assert(use_known(sheets, crossings, n, uses[j]));
                if let UseView::Circle(d) = uses[j] {
                    if d.group == c.group {
                        lemma_rims_are_told_apart(sheets, c, d);
                    }
                }
            }
            lemma_rims_are_told_apart(sheets, c, c);
            lemma_group_is_circle(uses, c);
            lemma_circles_faces(faces, c.group);
            law_rims_are_shared_by_two(sheets, crossings, log, c.group);
        },
        UseView::Path { points, start, end, mid, group } => {
            let (x, j) = choose|x: int, j: int|
                0 <= x < crossings.len() && 0 <= j < 4 && #[trigger] has_piece(crossings[x], j)
                    && key_of(uses[i]) == CurveKey::Path(piece_key(crossings[x], j));
            let key = piece_key(crossings[x], j);
            assert(crossings[x].id == x);
            assert(key.group == x);
            lemma_scaffold_times(sheets, crossings, log, n, key);
            lemma_marks_are_cuts(sheets, log, x);
            assert(times_cut(log, x) == 2);
            lemma_one_piece(crossings[x], j);
        },
    }
}

/// A piece of a window is not any other.
proof fn lemma_one_piece(window: Window, j: int)
    requires
        0 <= j < 4,
        has_piece(window, j),
        pieces_differ(window),
    ensures
        pieces_with(window, piece_key(window, j)) == 1,
{
    assert forall|i: int| 0 <= i < 4 && i != j implies piece_hit(
        window,
        i,
        piece_key(window, j),
    ) == 0 by {
        if has_piece(window, i) {
            if i < j {
                assert(has_piece(window, i) && has_piece(window, j));
            } else {
                assert(has_piece(window, j) && has_piece(window, i));
            }
        }
    }
    assert(piece_hit(window, j, piece_key(window, j)) == 1);
}

/// Whether every crossing is between members that are there, and the pieces of
/// its window are different curves.
pub open spec fn crossings_sound(sheets: Seq<FilamentSheet>, all: Seq<Crossing>) -> bool {
    forall|i: int|
        0 <= i < all.len() ==> pieces_differ((#[trigger] all[i]).window) && present(
            sheets,
            all[i].pair.one(),
            sheets.len() as int,
        ) && present(sheets, all[i].pair.other(), sheets.len() as int)
}

/// A fused scaffold is closed: every edge that fusing made has exactly two
/// co-edges, whatever crossings were accepted.
pub proof fn law_scaffold_is_watertight(
    before: Model,
    after: Model,
    sheets: Seq<FilamentSheet>,
    all: Seq<Crossing>,
    near: Seq<Vec<Nearness>>,
    strict: bool,
    shell: ShellId,
    edge: EdgeId,
)
    requires
        scaffold_fused(before, after, sheets, all, near, strict, shell),
        before.coedges.dom().finite(),
        joined_up(sheets),
        counted(sheets),
        crossings_sound(sheets, all),
        all.len() <= u32::MAX,
        2 * leg_base(sheets, sheets.len() as int) <= u32::MAX,
        after.edges.dom().contains(edge),
        !before.edges.dom().contains(edge),
    ensures
        users(before, after, edge).len() == 2,
{
    let n = all.len() as int;
    let state = imprints(all, near, strict, n);
    let (crossings, t, faces, solid) = choose|
        crossings: Seq<Window>,
        t: AsmState,
        faces: Seq<FaceId>,
        solid: SolidId,
    |
        windows_of(crossings, all, state) && #[trigger] faces_made(
            fresh(before),
            t,
            scaffold_faces(sheets, crossings, state.log, sheets.len() as int),
            faces,
        ) && #[trigger] assembled(t.model, after, faces, Some("scaffold"@), shell, solid);
    let planned = scaffold_faces(sheets, crossings, state.log, sheets.len() as int);
    let uses = uses_of(planned);
    law_windows_are_cut_twice(all, near, strict, n, 0);
    assert forall|x: int| 0 <= x < crossings.len() implies (#[trigger] crossings[x]).id == x by {
        assert(window_of(crossings[x], all[state.origins[x] as int], x));
    }
    assert forall|x: int| 0 <= x < crossings.len() implies #[trigger] times_cut(state.log, x)
        == 2 by {
        law_windows_are_cut_twice(all, near, strict, n, x);
    }
    assert forall|x: int| 0 <= x < crossings.len() implies pieces_differ(
        #[trigger] crossings[x],
    ) by {
        law_windows_are_cut_twice(all, near, strict, n, x);
        let c = all[state.origins[x] as int];
        assert(window_of(crossings[x], c, x));
        assert(pieces_differ(c.window));
        lemma_same_pieces(c.window, crossings[x]);
    }
    assert forall|m: int| 0 <= m < state.log.len() implies (
    #[trigger] state.log[m]).mark.crossing < crossings.len() && present(
        sheets,
        state.log[m].member,
        sheets.len() as int,
    ) by {
        law_windows_are_cut_twice(all, near, strict, n, m / 2);
        let c = all[state.origins[m / 2] as int];
        assert(pieces_differ(c.window));
        assert(m == 2 * (m / 2) || m == 2 * (m / 2) + 1);
    }
    law_faces_become_coedges(before, t, planned, faces);
    assert forall|i: int| 0 <= i < uses.len() implies times_used(
        uses,
        key_of(#[trigger] uses[i]),
    ) == 2 by {
        law_scaffold_uses_curves_twice(sheets, crossings, state.log, i);
    }
    law_used_twice_is_closed(before, t, uses, edge);
    assert(users(before, after, edge) =~= users(before, t.model, edge));
}

/// Windows with the same points have the same pieces, but for their ids.
proof fn lemma_same_pieces(a: Window, b: Window)
    requires
        pieces_differ(a),
        b.points == a.points,
        b.closing == a.closing,
        b.mids == a.mids,
    ensures
        pieces_differ(b),
{
    assert forall|i: int, j: int| 0 <= i < j < 4 && #[trigger] has_piece(b, i)
        && #[trigger] has_piece(b, j) implies piece_key(b, i) != piece_key(b, j) by {
        assert(window_ring(b) == window_ring(a));
        assert(has_piece(a, i) && has_piece(a, j));
        assert(piece_key(a, i) != piece_key(a, j));
    }
}

// ── Both ways ───────────────────────────────────────────────────────────────

/// The use of piece `j` of a window, one way or the other.
pub open spec fn piece_run(window: Window, j: int, against: bool) -> UseView {
    let piece = quarter(window_ring(window), j);
    piece_use(
        if against {
            piece.reverse()
        } else {
            piece
        },
        window_mid(window, j),
        window.id,
    )
}

/// A piece of a window is among the uses of the window.
pub proof fn lemma_window_holds(window: Window, against: bool, n: int, j: int)
    requires
        0 <= n <= 4,
        0 <= j < 4,
        has_piece(window, j),
        if against {
            4 - n <= j
        } else {
            j < n
        },
    ensures
        window_uses(window, against, n).contains(piece_run(window, j, against)),
    decreases n,
{
    if n > 0 {
        let k = if against {
            4 - n
        } else {
            n - 1
        };
        let so_far = window_uses(window, against, n - 1);
        let all = window_uses(window, against, n);
        let u = piece_run(window, j, against);
        if j == k {
            assert(all[all.len() - 1] == u);
        } else {
            lemma_window_holds(window, against, n - 1, j);
            let i = choose|i: int| 0 <= i < so_far.len() && so_far[i] == u;
            assert(all[i] == u);
        }
    }
}

/// The uses of a mark are among those of all.
pub proof fn lemma_marks_hold(crossings: Seq<Window>, marks: Seq<Mark>, n: int, q: int, u: UseView)
    requires
        0 <= q < n <= marks.len(),
        mark_uses(crossings, marks[q]).contains(u),
    ensures
        all_uses(marks_uses(crossings, marks, n)).contains(u),
    decreases n,
{
    let so_far = marks_uses(crossings, marks, n - 1);
    let all = marks_uses(crossings, marks, n);
    assert(all.drop_last() =~= so_far);
    let whole = all_uses(all);
    if q == n - 1 {
        let i = choose|i: int| 0 <= i < all.last().len() && all.last()[i] == u;
        assert(whole[all_uses(so_far).len() + i] == u);
    } else {
        lemma_marks_hold(crossings, marks, n - 1, q, u);
        let i = choose|i: int| 0 <= i < all_uses(so_far).len() && all_uses(so_far)[i] == u;
        assert(whole[i] == u);
    }
}

/// What was cut into a member is among its marks.
pub proof fn lemma_log_holds(log: Seq<Imprint>, m: int)
    requires
        0 <= m < log.len(),
    ensures
        marks_of(log, log[m].member).contains(log[m].mark),
    decreases log.len(),
{
    let member = log[m].member;
    let less = marks_of(log.drop_last(), member);
    let all = marks_of(log, member);
    if m == log.len() - 1 {
        assert(all[all.len() - 1] == log[m].mark);
    } else {
        assert(log.drop_last()[m] == log[m]);
        lemma_log_holds(log.drop_last(), m);
        let i = choose|i: int| 0 <= i < less.len() && less[i] == log[m].mark;
        assert(all[i] == log[m].mark);
    }
}

/// What a sequence holds, it holds with more on either side.
proof fn lemma_holds_more(a: Seq<UseView>, b: Seq<UseView>, c: Seq<UseView>, u: UseView)
    requires
        b.contains(u),
    ensures
        (a + b + c).contains(u),
{
    let i = choose|i: int| 0 <= i < b.len() && b[i] == u;
    assert((a + b + c)[a.len() + i] == u);
}

/// A tube uses the windows that it is marked with.
proof fn lemma_tube_holds(
    near: CircleUse,
    far: CircleUse,
    crossings: Seq<Window>,
    marks: Seq<Mark>,
    q: int,
    u: UseView,
)
    requires
        0 <= q < marks.len(),
        mark_uses(crossings, marks[q]).contains(u),
    ensures
        (seq![UseView::Circle(near)] + all_uses(tube_inner(far, crossings, marks))).contains(u),
{
    lemma_tube_uses(near, far, crossings, marks);
    lemma_marks_hold(crossings, marks, marks.len() as int, q, u);
    let rest = all_uses(marks_uses(crossings, marks, marks.len() as int));
    let rims = seq![UseView::Circle(near), UseView::Circle(far)];
    lemma_holds_more(rims, rest, Seq::empty(), u);
    assert(rims + rest + Seq::<UseView>::empty() =~= rims + rest);
}

/// A face's uses are among those of a list that it is added to, and stay there.
proof fn lemma_push_holds(faces: Seq<AsmFace>, face: AsmFace, u: UseView)
    ensures
        uses_of(faces).contains(u) ==> uses_of(faces.push(face)).contains(u),
        (face.outer + all_uses(face.inner)).contains(u) ==> uses_of(faces.push(face)).contains(u),
{
    lemma_uses_push(faces, face);
    let done = uses_of(faces);
    let more = face.outer + all_uses(face.inner);
    assert(done + face.outer + all_uses(face.inner) =~= done + more);
    if done.contains(u) {
        lemma_holds_more(Seq::empty(), done, more, u);
        assert(Seq::<UseView>::empty() + done + more =~= done + more);
    }
    if more.contains(u) {
        lemma_holds_more(done, more, Seq::empty(), u);
        assert(done + more + Seq::<UseView>::empty() =~= done + more);
    }
}

proof fn lemma_legs_hold(
    sheet: FilamentSheet,
    f: int,
    base: int,
    crossings: Seq<Window>,
    log: Seq<Imprint>,
    k: int,
    i: int,
    q: int,
    u: UseView,
)
    requires
        0 <= i < k <= sheet.legs@.len(),
        ({
            let marks = marks_of(log, Member::Leg { f: f as usize, i: i as usize });
            0 <= q < marks.len() && mark_uses(crossings, marks[q]).contains(u)
        }),
    ensures
        uses_of(leg_faces(sheet, f, base, crossings, log, k)).contains(u),
    decreases k,
{
    let j = k - 1;
    let leg = sheet.legs@[j];
    let so_far = leg_faces(sheet, f, base, crossings, log, j);
    let rim_in = grouped(leg.rim_in, group_in(base, j));
    let rim_out = grouped(leg.rim_out, group_out(base, j));
    let tube = leg_face(leg, f, base, j, crossings, log);
    if i == j {
        let marks = marks_of(log, Member::Leg { f: f as usize, i: j as usize });
        lemma_tube_holds(rim_in, rim_out, crossings, marks, q, u);
    } else {
        lemma_legs_hold(sheet, f, base, crossings, log, j, i, q, u);
    }
    lemma_push_holds(so_far, tube, u);
    let list = so_far.push(tube);
    let cap_in = cap_face(leg.cap_in, rim_in);
    let cap_out = cap_face(leg.cap_out, rim_out);
    lemma_push_holds(list, cap_in, u);
    lemma_push_holds(list.push(cap_in), cap_out, u);
    lemma_push_holds(list, cap_out, u);
}

proof fn lemma_elbows_hold(
    sheet: FilamentSheet,
    f: int,
    base: int,
    crossings: Seq<Window>,
    log: Seq<Imprint>,
    k: int,
    i: int,
    q: int,
    u: UseView,
)
    requires
        0 <= i < k <= sheet.elbows@.len(),
        ({
            let marks = marks_of(log, Member::Elbow { f: f as usize, i: i as usize });
            0 <= q < marks.len() && mark_uses(crossings, marks[q]).contains(u)
        }),
    ensures
        uses_of(elbow_faces(sheet, f, base, crossings, log, k)).contains(u),
    decreases k,
{
    let j = k - 1;
    let so_far = elbow_faces(sheet, f, base, crossings, log, j);
    let face = elbow_face(sheet, f, base, j, crossings, log);
    if i == j {
        let from = grouped(sheet.legs@[j].rim_out, group_out(base, j));
        let to = grouped(sheet.legs@[j + 1].rim_in, group_in(base, j + 1));
        let marks = marks_of(log, Member::Elbow { f: f as usize, i: j as usize });
        lemma_tube_holds(from, to, crossings, marks, q, u);
    } else {
        lemma_elbows_hold(sheet, f, base, crossings, log, j, i, q, u);
    }
    lemma_push_holds(so_far, face, u);
}

/// The faces of a scaffold use every window in the members it is cut into.
proof fn lemma_scaffold_holds(
    sheets: Seq<FilamentSheet>,
    crossings: Seq<Window>,
    log: Seq<Imprint>,
    k: int,
    m: int,
    u: UseView,
)
    requires
        0 <= k <= sheets.len(),
        0 <= m < log.len(),
        present(sheets, log[m].member, k),
        mark_uses(crossings, log[m].mark).contains(u),
    ensures
        uses_of(scaffold_faces(sheets, crossings, log, k)).contains(u),
    decreases k,
{
    lemma_log_holds(log, m);
    let marks = marks_of(log, log[m].member);
    let q = choose|q: int| 0 <= q < marks.len() && marks[q] == log[m].mark;
    let f = k - 1;
    let sheet = sheets[f];
    let base = leg_base(sheets, f);
    let done = scaffold_faces(sheets, crossings, log, f);
    let legs = leg_faces(sheet, f, base, crossings, log, sheet.legs@.len() as int);
    let elbows = elbow_faces(sheet, f, base, crossings, log, sheet.elbows@.len() as int);
    lemma_uses_add(done, legs);
    lemma_uses_add(done + legs, elbows);
    let a = uses_of(done);
    let b = uses_of(legs);
    let c = uses_of(elbows);
    match log[m].member {
        Member::Leg { f: g, i } => {
            if g == f {
                lemma_legs_hold(
                    sheet,
                    f,
                    base,
                    crossings,
                    log,
                    sheet.legs@.len() as int,
                    i as int,
                    q,
                    u,
                );
                lemma_holds_more(a, b, c, u);
            } else {
                lemma_scaffold_holds(sheets, crossings, log, f, m, u);
                lemma_holds_more(Seq::empty(), a, b + c, u);
                assert(Seq::<UseView>::empty() + a + (b + c) =~= a + b + c);
            }
        },
        Member::Elbow { f: g, i } => {
            if g == f {
                lemma_elbows_hold(
                    sheet,
                    f,
                    base,
                    crossings,
                    log,
                    sheet.elbows@.len() as int,
                    i as int,
                    q,
                    u,
                );
                lemma_holds_more(a + b, c, Seq::empty(), u);
                assert(a + b + c + Seq::<UseView>::empty() =~= a + b + c);
            } else {
                lemma_scaffold_holds(sheets, crossings, log, f, m, u);
                lemma_holds_more(Seq::empty(), a, b + c, u);
                assert(Seq::<UseView>::empty() + a + (b + c) =~= a + b + c);
            }
        },
    }
}

proof fn lemma_run_counts(uses: Seq<UseView>, u: UseView, key: EdgeKey, from: GridKey)
    requires
        uses.contains(u),
        runs_from(u, key, from),
    ensures
        times_from(uses, key, from) >= 1,
    decreases uses.len(),
{
    let i = choose|i: int| 0 <= i < uses.len() && uses[i] == u;
    if i < uses.len() - 1 {
        assert(uses.drop_last()[i] == u);
        lemma_run_counts(uses.drop_last(), u, key, from);
    }
}

/// Faces become co-edges in the direction of their uses.
proof fn lemma_faces_oriented(before: Model, t: AsmState, faces: Seq<AsmFace>, ids: Seq<FaceId>)
    requires
        before.coedges.dom().finite(),
        faces_made(fresh(before), t, faces, ids),
    ensures
        oriented_right(before, t, uses_of(faces)),
    decreases faces.len(),
{
    if faces.len() == 0 {
        lemma_nothing_is_turned(before);
    } else {
        let face = faces.last();
        let m = choose|m: AsmState|
            faces_made(fresh(before), m, faces.drop_last(), ids.drop_last())
                && #[trigger] face_made(
                m,
                t,
                face.geom,
                FaceNormal::Same,
                face.extent,
                face.outer,
                face.inner,
                ids.last(),
            );
        law_faces_become_coedges(before, m, faces.drop_last(), ids.drop_last());
        lemma_faces_oriented(before, m, faces.drop_last(), ids.drop_last());
        law_uses_keep_their_direction(
            before,
            m,
            t,
            uses_of(faces.drop_last()),
            face.geom,
            FaceNormal::Same,
            face.extent,
            face.outer,
            face.inner,
            ids.last(),
        );
    }
}

/// Whether the pieces of a window lead from one place to another.
pub open spec fn pieces_lead_on(window: Window) -> bool {
    forall|j: int|
        0 <= j < 4 && #[trigger] has_piece(window, j) ==> piece_key(window, j).lo != piece_key(
            window,
            j,
        ).hi
}

/// Whether every crossing looks out of one of its members counter-clockwise and
/// of the other clockwise, and the pieces of its window lead on.
pub open spec fn crossings_face_both_ways(all: Seq<Crossing>) -> bool {
    forall|i: int|
        0 <= i < all.len() ==> pieces_lead_on((#[trigger] all[i]).window) && (Real {
            bits: 0,
        }).below(all[i].first_facing) != (Real { bits: 0 }).below(all[i].second_facing)
}

/// The edges of the windows of a fused scaffold are run along both ways: of the
/// two co-edges on each, one runs along it and the other against it.
pub proof fn law_windows_are_run_both_ways(
    before: Model,
    after: Model,
    sheets: Seq<FilamentSheet>,
    all: Seq<Crossing>,
    near: Seq<Vec<Nearness>>,
    strict: bool,
    shell: ShellId,
    edge: EdgeId,
)
    requires
        scaffold_fused(before, after, sheets, all, near, strict, shell),
        before.coedges.dom().finite(),
        joined_up(sheets),
        counted(sheets),
        crossings_sound(sheets, all),
        crossings_face_both_ways(all),
        all.len() <= u32::MAX,
        2 * leg_base(sheets, sheets.len() as int) <= u32::MAX,
        after.edges.dom().contains(edge),
        !before.edges.dom().contains(edge),
        after.edges[edge].geom is Polyline,
    ensures
        users(before, after, edge).len() == 2,
        along(before, after, edge).len() == 1,
{
    let n = all.len() as int;
    let state = imprints(all, near, strict, n);
    let (crossings, t, faces, solid) = choose|
        crossings: Seq<Window>,
        t: AsmState,
        faces: Seq<FaceId>,
        solid: SolidId,
    |
        windows_of(crossings, all, state) && #[trigger] faces_made(
            fresh(before),
            t,
            scaffold_faces(sheets, crossings, state.log, sheets.len() as int),
            faces,
        ) && #[trigger] assembled(t.model, after, faces, Some("scaffold"@), shell, solid);
    let planned = scaffold_faces(sheets, crossings, state.log, sheets.len() as int);
    let uses = uses_of(planned);
    law_scaffold_is_watertight(before, after, sheets, all, near, strict, shell, edge);
    law_faces_become_coedges(before, t, planned, faces);
    lemma_faces_oriented(before, t, planned, faces);
    law_windows_are_cut_twice(all, near, strict, n, 0);
    assert forall|m: int| 0 <= m < state.log.len() implies (
    #[trigger] state.log[m]).mark.crossing < crossings.len() by {
        law_windows_are_cut_twice(all, near, strict, n, m / 2);
        assert(m == 2 * (m / 2) || m == 2 * (m / 2) + 1);
    }
    lemma_known_scaffold(sheets, crossings, state.log, sheets.len() as int, sheets.len() as int);
    let key = choose|k: CurveKey| #[trigger] edge_known(t, k) && edge_under(t, k) == edge;
    assert(t.model.edges == after.edges);
    assert(key is Path) by {
        if let CurveKey::Circle(k) = key {
            assert(t.circles.dom().contains(k));
        }
    }
    assert(times_used(uses, key) > 0);
    lemma_some_use(uses, key);
    let i = choose|i: int| 0 <= i < uses.len() && key_of(#[trigger] uses[i]) == key;
    assert(use_known(sheets, crossings, sheets.len() as int, uses[i]));
    let (x, j) = choose|x: int, j: int|
        0 <= x < crossings.len() && 0 <= j < 4 && #[trigger] has_piece(crossings[x], j) && key
            == CurveKey::Path(piece_key(crossings[x], j));
    let window = crossings[x];
    let k = piece_key(window, j);
    law_windows_are_cut_twice(all, near, strict, n, x);
    let c = all[state.origins[x] as int];
    assert(window_of(window, c, x));
    assert(crossings_sound(sheets, all));
    assert(pieces_differ(c.window) && pieces_lead_on(c.window));
    lemma_leads_on(c.window, window, j);
    let one = state.log[2 * x];
    let two = state.log[2 * x + 1];
    lemma_facings(all, near, strict, n, x);
    let a = (Real { bits: 0 }).below(one.mark.facing);
    let b = (Real { bits: 0 }).below(two.mark.facing);
    assert(a != b);
    lemma_window_holds(window, a, 4, j);
    lemma_window_holds(window, b, 4, j);
    let piece = quarter(window_ring(window), j);
    assert(piece.reverse()[0] == piece.last());
    assert(piece.reverse().last() == piece[0]);
    let u = piece_run(window, j, false);
    let v = piece_run(window, j, true);
    assert(runs_from(u, k, piece[0].key));
    assert(runs_from(v, k, piece.last().key));
    lemma_scaffold_holds(
        sheets,
        crossings,
        state.log,
        sheets.len() as int,
        2 * x,
        piece_run(window, j, a),
    );
    lemma_scaffold_holds(
        sheets,
        crossings,
        state.log,
        sheets.len() as int,
        2 * x + 1,
        piece_run(window, j, b),
    );
    lemma_run_counts(uses, u, k, piece[0].key);
    lemma_run_counts(uses, v, k, piece.last().key);
    assert((k.lo == piece[0].key && k.hi == piece.last().key) || (k.hi == piece[0].key && k.lo
        == piece.last().key));
    assert(times_used(uses, key) == 2);
    law_run_both_ways(before, t, uses, k);
    assert(along(before, after, edge) =~= along(before, t.model, edge));
}

/// Windows with the same points lead on alike.
proof fn lemma_leads_on(a: Window, b: Window, j: int)
    requires
        pieces_lead_on(a),
        b.points == a.points,
        b.closing == a.closing,
        b.mids == a.mids,
        0 <= j < 4,
        has_piece(b, j),
    ensures
        piece_key(b, j).lo != piece_key(b, j).hi,
{
    assert(window_ring(b) == window_ring(a));
    assert(has_piece(a, j));
}

/// The two marks of a window face as its crossing does.
proof fn lemma_facings(
    all: Seq<Crossing>,
    near: Seq<Vec<Nearness>>,
    strict: bool,
    n: int,
    id: int,
)
    requires
        0 <= n <= all.len(),
        all.len() <= u32::MAX,
        0 <= id < imprints(all, near, strict, n).origins.len(),
    ensures
        ({
            let state = imprints(all, near, strict, n);
            let c = all[state.origins[id] as int];
            &&& state.log[2 * id].mark.facing == c.first_facing
            &&& state.log[2 * id + 1].mark.facing == c.second_facing
        }),
    decreases n,
{
    if n > 0 {
        let before = imprints(all, near, strict, n - 1);
        law_windows_are_cut_twice(all, near, strict, n - 1, id);
        if id < before.origins.len() {
            lemma_facings(all, near, strict, n - 1, id);
        }
    }
}

} // verus!
