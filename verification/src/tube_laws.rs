//! How the tubes of filaments are laid out, joined and cut open.

use vstd::prelude::*;

use crate::assembly::{
    bend_extent, circle_fit, half_way, mark_uses, marks_uses, piece_use, points_back, points_once,
    quarter, step_uses, tube_inner, window_ring, window_uses, CellStep, CircleUse, FitMeasure, Mark, MidPlace, UseView, Window,
};
use crate::bounds::StepPoint;
use crate::entities::{FaceExtent, FaceGeom};
use crate::geometry::{Point3, UnitVec3};
use crate::scaffold::{
    clears, decimated, elbow_face, elbow_faces, imprinted, imprints, kept_count, leg_base,
    leg_face, leg_faces, marks_of, run_leg, scaffold_faces, spans, stride, within_arc, accepted,
    AsmFace, BendSheet, Corner, Crossing, Filament, FilamentSheet, Imprint, Member, Nearness,
    RimSheet, Run, Span, TubePart,
};
use crate::scalar::Real;

verus! {

// ── Filaments ───────────────────────────────────────────────────────────────

/// A filament runs on without a gap: from the first vertex to the last, each leg
/// up to where the bend after it starts, and the next from where that bend ends.
pub proof fn law_filaments_run_on(verts: Seq<Point3>, corners: Seq<Corner>, k: int)
    requires
        verts.len() >= 2,
        corners.len() + 2 == verts.len(),
        0 <= k < corners.len(),
    ensures
        spans(verts, corners).len() == verts.len() - 1,
        spans(verts, corners)[0].start == verts[0],
        spans(verts, corners).last().end == verts.last(),
        spans(verts, corners)[k].end == corners[k].entry,
        spans(verts, corners)[k + 1].start == corners[k].exit,
{
}

/// Without corners a filament is one leg from end to end.
pub proof fn law_straight_filaments(verts: Seq<Point3>, corners: Seq<Corner>)
    requires
        verts.len() == 2,
        corners.len() == 0,
    ensures
        spans(verts, corners).len() == 1,
        spans(verts, corners)[0].start == verts[0],
        spans(verts, corners)[0].end == verts[1],
{
}

/// A leg starts where its run does, and is else as it was measured.
pub proof fn law_legs_start_with_their_run(run: Run)
    ensures
        run_leg(run).surf.frame.origin == run.span.start,
        run_leg(run).surf.frame.x == run.leg.surf.frame.x,
        run_leg(run).surf.frame.y == run.leg.surf.frame.y,
        run_leg(run).surf.frame.z == run.leg.surf.frame.z,
        run_leg(run).surf.radius == run.leg.surf.radius,
        run_leg(run).length == run.leg.length,
{
}

/// The parts of a filament are its legs and after them its bends, each once.
pub proof fn law_parts_are_legs_and_bends(filament: Filament)
    ensures
        filament.parts().len() == filament.legs@.len() + filament.elbows@.len(),
        forall|i: int|
            0 <= i < filament.legs@.len() ==> #[trigger] filament.parts()[i] == TubePart::Leg(
                filament.legs@[i],
            ),
        forall|i: int|
            0 <= i < filament.elbows@.len() ==> filament.parts()[filament.legs@.len() + i]
                == TubePart::Elbow(#[trigger] filament.elbows@[i]),
{
}

// ── Loops with fewer points ─────────────────────────────────────────────────

/// A loop with too many points keeps at most as many as it may, its first, every
/// `s`-th after it, and its last (unless that is kept already, to 1e-9), where `s`
/// is the least number for which they are few enough. One with few enough points
/// keeps them all.
pub proof fn law_thinned_loops(points: Seq<Point3>, max: int, gap: Real, s: int, i: int)
    requires
        s >= 1,
        s * max >= points.len(),
        (s - 1) * max < points.len(),
    ensures
        points.len() <= max || max < 2 ==> decimated(points, max, gap) == points,
        2 <= max < points.len() ==> 2 <= decimated(points, max, gap).len() <= max && decimated(
            points,
            max,
            gap,
        )[0] == points[0],
        2 <= max < points.len() && 0 <= i < decimated(points, max, gap).len() - 1 ==> i * s
            < points.len() && decimated(points, max, gap)[i] == points[i * s],
        2 <= max < points.len() && (Real { bits: 0x3e112e0be826d695 }).below(gap) ==> decimated(
            points,
            max,
            gap,
        ).last() == points.last(),
        2 <= max < points.len() && !(Real { bits: 0x3e112e0be826d695 }).below(gap) ==> {
            let last = decimated(points, max, gap).len() - 1;
            last * s < points.len() <= last * s + s && decimated(points, max, gap).last()
                == points[last * s]
        },
{
    let n = points.len() as int;
    if 2 <= max < n {
        let step = stride(n, max);
        assert(step == s) by (nonlinear_arith)
            requires
                2 <= max < n,
                step == (n + max - 1) / max,
                s >= 1,
                s * max >= n,
                (s - 1) * max < n,
        ;
        assert(s >= 2 && s < n) by (nonlinear_arith)
            requires
                2 <= max < n,
                s * max >= n,
                (s - 1) * max < n,
        ;
        let c = kept_count(n, max);
        assert(c * s >= n && (c - 1) * s < n && c <= max && c >= 2) by (nonlinear_arith)
            requires
                2 <= s < n,
                s * max >= n,
                c == (n + s - 1) / s,
        ;
        let out = decimated(points, max, gap);
        let kept = Seq::new(c as nat, |i: int| points[i * s]);
        assert(kept =~= Seq::new(kept_count(n, max) as nat, |i: int| points[i * stride(n, max)]));
        let far = (Real { bits: 0x3e112e0be826d695 }).below(gap);
        assert(!far ==> out == kept);
        assert(far && c < max ==> out == kept.push(points.last()));
        assert(far && c == max ==> out == kept.drop_last().push(points.last()));
        assert(0 * s == 0);
        assert(kept[0] == points[0 * s]);
        assert(kept[c - 1] == points[(c - 1) * s]);
        assert(2 <= out.len() <= max);
        assert(out[0] == points[0]);
        assert(far ==> out.last() == points.last());
        if !far {
            assert(out.len() == c);
            assert((c - 1) * s + s == c * s) by (nonlinear_arith);
            assert(out.last() == kept[c - 1]);
        }
        if 0 <= i < out.len() - 1 {
            assert(i * s <= (c - 1) * s) by (nonlinear_arith)
                requires
                    i <= c - 1,
                    s >= 2,
            ;
            assert(kept[i] == points[i * s]);
        }
    }
}

// ── Windows ─────────────────────────────────────────────────────────────────

/// A window keeps clear of the free ends of a leg if its centre is further than
/// its radius from each.
pub proof fn law_windows_clear_free_ends(rim: RimSheet)
    ensures
        clears(rim, false, false),
        clears(rim, true, false) <==> rim.radius.below(rim.along),
        clears(rim, false, true) <==> rim.along.below(rim.last),
        clears(rim, true, true) <==> rim.radius.below(rim.along) && rim.along.below(rim.last),
{
}

/// A crossing is on a bend if the bend is one (1e-9) and every point is after
/// -0.15 of it and before its limit.
pub proof fn law_crossings_on_bends(arc: BendSheet)
    ensures
        within_arc(arc) <==> !arc.sweep.below(Real { bits: 0x3e112e0be826d695 }) && forall|i: int|
            0 <= i < arc.angles@.len() ==> (Real { bits: 0xbfc3333333333333 }).below(
                #[trigger] arc.angles@[i],
            ) && arc.angles@[i].below(arc.limit),
{
}

/// A window is marked in either member with how it faces there.
pub proof fn law_windows_face_as_measured(
    all: Seq<Crossing>,
    near: Seq<Vec<Nearness>>,
    strict: bool,
    n: int,
    id: int,
)
    requires
        0 <= n <= all.len(),
        all.len() <= u32::MAX,
        0 <= id < imprints(all, near, strict, n).origins.len(),
    ensures
        ({
            let state = imprints(all, near, strict, n);
            let c = all[state.origins[id] as int];
            &&& 2 * id + 1 < state.log.len()
            &&& state.log[2 * id].mark.facing == c.first_facing
            &&& state.log[2 * id + 1].mark.facing == c.second_facing
            &&& state.log[2 * id].origin == state.origins[id]
            &&& state.log[2 * id + 1].origin == state.origins[id]
        }),
    decreases n,
{
    if n > 0 {
        let was = imprints(all, near, strict, n - 1);
        crate::scaffold::law_windows_are_cut_twice(all, near, strict, n - 1, id);
        if id < was.origins.len() {
            law_windows_face_as_measured(all, near, strict, n - 1, id);
        }
    }
}

proof fn lemma_filter_push<A>(s: Seq<A>, a: A, f: spec_fn(A) -> bool)
    ensures
        s.push(a).filter(f) == (if f(a) {
            s.filter(f).push(a)
        } else {
            s.filter(f)
        }),
{
    reveal(Seq::filter);
    assert(s.push(a).drop_last() =~= s);
}

/// The windows of a member are those that were cut into it, in turn.
pub proof fn law_members_have_their_windows(log: Seq<Imprint>, member: Member)
    ensures
        ({
            let own = log.filter(|e: Imprint| e.member == member);
            &&& marks_of(log, member).len() == own.len()
            &&& forall|i: int|
                0 <= i < own.len() ==> #[trigger] marks_of(log, member)[i] == own[i].mark
        }),
    decreases log.len(),
{
    let f = |e: Imprint| e.member == member;
    if log.len() == 0 {
        reveal(Seq::filter);
    } else {
        let rest = log.drop_last();
        law_members_have_their_windows(rest, member);
        assert(log =~= rest.push(log.last()));
        lemma_filter_push(rest, log.last(), f);
        let own = log.filter(f);
        assert forall|i: int| 0 <= i < own.len() implies #[trigger] marks_of(log, member)[i]
            == own[i].mark by {
            if i < rest.filter(f).len() {
                assert(marks_of(rest, member)[i] == rest.filter(f)[i].mark);
            }
        }
    }
}

/// Whether a use runs along a ring of points, from point `a` to point `b`.
pub open spec fn runs_along_ring(u: UseView, ring: Seq<StepPoint>, a: int, b: int) -> bool {
    let m = ring.len() as int;
    u matches UseView::Path { points, start, end, mid, group } && {
        &&& points.len() == b - a + 1
        &&& forall|i: int| 0 <= i <= b - a ==> #[trigger] points[i] == ring[(a + i) % m].at
        &&& start == ring[a % m]
        &&& end == ring[b % m]
    }
}

/// Whether one use runs the way of another backward, along the same curve.
pub open spec fn runs_back(u: UseView, v: UseView) -> bool {
    u matches UseView::Path { points: p, start: s, end: e, mid: m, group: g } && v matches
        UseView::Path { points: q, start: t, end: f, mid: n, group: h } && {
        &&& p == q.reverse()
        &&& s == f
        &&& e == t
        &&& m == n
        &&& g == h
    }
}

/// The window of a mark is gone round in four uses, quarter after quarter of its
/// ring, the last back to where the first starts. Where the window faces out it
/// is gone round the other way: the same uses backward, from the last to the
/// first.
pub proof fn law_windows_are_gone_round(crossings: Seq<Window>, mark: Mark, out: Mark)
    requires
        mark.crossing == out.crossing,
        !(Real { bits: 0 }).below(mark.facing),
        (Real { bits: 0 }).below(out.facing),
        window_ring(crossings[mark.crossing as int]).len() >= 4,
    ensures
        ({
            let window = crossings[mark.crossing as int];
            let ring = window_ring(window);
            let m = ring.len() as int;
            let uses = mark_uses(crossings, mark);
            let back = mark_uses(crossings, out);
            &&& uses.len() == 4
            &&& back.len() == 4
            &&& runs_along_ring(uses[0], ring, 0, m / 4)
            &&& runs_along_ring(uses[1], ring, m / 4, m * 2 / 4)
            &&& runs_along_ring(uses[2], ring, m * 2 / 4, m * 3 / 4)
            &&& runs_along_ring(uses[3], ring, m * 3 / 4, m)
            &&& runs_back(back[0], uses[3])
            &&& runs_back(back[1], uses[2])
            &&& runs_back(back[2], uses[1])
            &&& runs_back(back[3], uses[0])
            &&& forall|k: int|
                0 <= k < 4 ==> (#[trigger] uses[k] matches UseView::Path {
                    points,
                    start,
                    end,
                    mid,
                    group,
                } && group == window.id)
            &&& uses[0]->mid == window.mids.0
            &&& uses[1]->mid == window.mids.1
            &&& uses[2]->mid == window.mids.2
            &&& uses[3]->mid == window.mids.3
        }),
{
    let window = crossings[mark.crossing as int];
    let ring = window_ring(window);
    let m = ring.len() as int;
    let uses = mark_uses(crossings, mark);
    let back = mark_uses(crossings, out);
    reveal_with_fuel(window_uses, 5);
    let q0 = quarter(ring, 0);
    let q1 = quarter(ring, 1);
    let q2 = quarter(ring, 2);
    let q3 = quarter(ring, 3);
    assert(m * 0 / 4 == 0 && m * 1 / 4 == m / 4 && m * 4 / 4 == m);
    assert(q0.len() >= 2 && q1.len() >= 2 && q2.len() >= 2 && q3.len() >= 2);
    assert(uses[0] == piece_use(q0, window.mids.0, window.id));
    assert(uses[1] == piece_use(q1, window.mids.1, window.id));
    assert(uses[2] == piece_use(q2, window.mids.2, window.id));
    assert(uses[3] == piece_use(q3, window.mids.3, window.id));
    assert(back[0] == piece_use(q3.reverse(), window.mids.3, window.id));
    assert(back[1] == piece_use(q2.reverse(), window.mids.2, window.id));
    assert(back[2] == piece_use(q1.reverse(), window.mids.1, window.id));
    assert(back[3] == piece_use(q0.reverse(), window.mids.0, window.id));
    lemma_back(q0, window.mids.0, window.id);
    lemma_back(q1, window.mids.1, window.id);
    lemma_back(q2, window.mids.2, window.id);
    lemma_back(q3, window.mids.3, window.id);
}

proof fn lemma_back(piece: Seq<StepPoint>, mid: crate::step::GridKey, group: u32)
    requires
        piece.len() > 0,
    ensures
        runs_back(piece_use(piece.reverse(), mid, group), piece_use(piece, mid, group)),
{
    assert(crate::assembly::places(piece.reverse()) =~= crate::assembly::places(piece).reverse());
}

/// The ring of a window has each of its points once: the last is left out if it
/// is the first again (1e-9).
pub proof fn law_window_rings(window: Window)
    ensures
        window.points@.len() > 1 && window.closing.below(Real { bits: 0x3e112e0be826d695 })
            ==> window_ring(window) == window.points@.take(window.points@.len() - 1),
        !window.closing.below(Real { bits: 0x3e112e0be826d695 }) ==> window_ring(window)
            == window.points@,
{
}

// ── Tubes ───────────────────────────────────────────────────────────────────

/// A bend joins its legs: it starts in the very circle in which the leg before it
/// ends, and ends in the one in which the leg after it starts.
pub proof fn law_tubes_join(
    sheet: FilamentSheet,
    f: int,
    base: int,
    crossings: Seq<Window>,
    log: Seq<Imprint>,
    i: int,
)
    requires
        0 <= i < sheet.elbows@.len(),
        i + 1 < sheet.legs@.len(),
    ensures
        ({
            let before = leg_face(sheet.legs@[i], f, base, i, crossings, log);
            let bend = elbow_face(sheet, f, base, i, crossings, log);
            let next = leg_face(sheet.legs@[i + 1], f, base, i + 1, crossings, log);
            &&& bend.outer == before.inner[0]
            &&& bend.inner[0] == next.outer
            &&& bend.geom == FaceGeom::Torus(sheet.elbows@[i].surf)
            &&& before.geom == FaceGeom::Cylinder(sheet.legs@[i].leg.surf)
            &&& before.outer.len() == 1 && before.inner[0].len() == 1
        }),
{
}

/// A leg starts in its first rim and ends in its second, each by itself, and has
/// a hole for each window that was cut into it; so has a bend. A bend without
/// windows runs from circle to circle; any other is trimmed.
pub proof fn law_tubes_have_their_rims_and_windows(
    sheet: FilamentSheet,
    f: int,
    base: int,
    crossings: Seq<Window>,
    log: Seq<Imprint>,
    i: int,
)
    requires
        0 <= f <= usize::MAX,
        0 <= i < sheet.legs@.len(),
        0 <= base,
        2 * (base + i) + 3 <= u32::MAX,
    ensures
        ({
            let leg = sheet.legs@[i];
            let tube = leg_face(leg, f, base, i, crossings, log);
            let marks = marks_of(log, Member::Leg { f: f as usize, i: i as usize });
            &&& tube.outer.len() == 1
            &&& tube.outer[0] matches UseView::Circle(c) && c.circle == leg.rim_in.circle && c.group
                == 2 * (base + i)
            &&& tube.inner.len() == 1 + marks.len()
            &&& tube.inner[0].len() == 1
            &&& tube.inner[0][0] matches UseView::Circle(c) && c.circle == leg.rim_out.circle
                && c.group == 2 * (base + i) + 1
            &&& forall|w: int|
                0 <= w < marks.len() ==> #[trigger] tube.inner[1 + w] == mark_uses(
                    crossings,
                    marks[w],
                )
            &&& tube.extent is Trimmed
        }),
        i < sheet.elbows@.len() && i + 1 < sheet.legs@.len() ==> {
            let bend = elbow_face(sheet, f, base, i, crossings, log);
            let marks = marks_of(log, Member::Elbow { f: f as usize, i: i as usize });
            &&& bend.inner.len() == 1 + marks.len()
            &&& forall|w: int|
                0 <= w < marks.len() ==> #[trigger] bend.inner[1 + w] == mark_uses(
                    crossings,
                    marks[w],
                )
            &&& marks.len() > 0 ==> bend.extent is Trimmed
            &&& marks.len() == 0 ==> (bend.extent matches FaceExtent::TorusFillet {
                start_circle,
                end_circle,
            } && start_circle == sheet.legs@[i].rim_out.circle && end_circle
                == sheet.legs@[i + 1].rim_in.circle)
        },
{
    let m1 = marks_of(log, Member::Leg { f: f as usize, i: i as usize });
    let m2 = marks_of(log, Member::Elbow { f: f as usize, i: i as usize });
    lemma_marks_uses(crossings, m1, m1.len() as int);
    lemma_marks_uses(crossings, m2, m2.len() as int);
    let tube = leg_face(sheet.legs@[i], f, base, i, crossings, log);
    assert forall|w: int| 0 <= w < m1.len() implies #[trigger] tube.inner[1 + w] == mark_uses(
        crossings,
        m1[w],
    ) by {
        assert(marks_uses(crossings, m1, m1.len() as int)[w] == mark_uses(crossings, m1[w]));
    }
    if i < sheet.elbows@.len() && i + 1 < sheet.legs@.len() {
        let bend = elbow_face(sheet, f, base, i, crossings, log);
        assert forall|w: int| 0 <= w < m2.len() implies #[trigger] bend.inner[1 + w] == mark_uses(
            crossings,
            m2[w],
        ) by {
            assert(marks_uses(crossings, m2, m2.len() as int)[w] == mark_uses(crossings, m2[w]));
        }
    }
}

proof fn lemma_marks_uses(crossings: Seq<Window>, marks: Seq<Mark>, k: int)
    requires
        0 <= k <= marks.len(),
    ensures
        marks_uses(crossings, marks, k).len() == k,
        forall|w: int|
            0 <= w < k ==> #[trigger] marks_uses(crossings, marks, k)[w] == mark_uses(
                crossings,
                marks[w],
            ),
    decreases k,
{
    if k > 0 {
        lemma_marks_uses(crossings, marks, k - 1);
    }
}

/// Whether a face is a disk over a circle.
pub open spec fn is_cap(face: AsmFace, plane: crate::geometry::Plane3, circle: UseView) -> bool {
    &&& face.geom == FaceGeom::Plane(plane)
    &&& face.outer == seq![circle]
    &&& face.inner.len() == 0
    &&& circle matches UseView::Circle(c) && face.extent == (FaceExtent::Disk {
        radius: c.circle.radius,
    })
}

proof fn lemma_legs(
    sheet: FilamentSheet,
    f: int,
    base: int,
    crossings: Seq<Window>,
    log: Seq<Imprint>,
    k: int,
)
    requires
        0 <= k <= sheet.legs@.len(),
    ensures
        ({
            let faces = leg_faces(sheet, f, base, crossings, log, k);
            let n = sheet.legs@.len() as int;
            &&& faces.len() == (if k == 0 {
                0
            } else if k < n {
                k + 1
            } else {
                k + 2
            })
            &&& k > 0 ==> faces[0] == leg_face(sheet.legs@[0], f, base, 0, crossings, log)
                && is_cap(faces[1], sheet.legs@[0].cap_in, faces[0].outer[0])
            &&& forall|i: int|
                1 <= i < k ==> #[trigger] faces[i + 1] == leg_face(
                    sheet.legs@[i],
                    f,
                    base,
                    i,
                    crossings,
                    log,
                )
            &&& k > 0 && k == n ==> is_cap(
                faces[k + 1],
                sheet.legs@[n - 1].cap_out,
                leg_face(sheet.legs@[n - 1], f, base, n - 1, crossings, log).inner[0][0],
            )
        }),
    decreases k,
{
    if k > 0 {
        lemma_legs(sheet, f, base, crossings, log, k - 1);
        let was = leg_faces(sheet, f, base, crossings, log, k - 1);
        let faces = leg_faces(sheet, f, base, crossings, log, k);
        assert forall|i: int| 1 <= i < k implies #[trigger] faces[i + 1] == leg_face(
            sheet.legs@[i],
            f,
            base,
            i,
            crossings,
            log,
        ) by {
            if i < k - 1 {
                assert(faces[i + 1] == was[i + 1]);
            }
        }
    }
}

/// A filament has a tube for each leg and a disk at each of its two ends, over
/// the rim that is free there; after these it has a bend for each two legs.
pub proof fn law_filaments_are_closed_at_both_ends(
    sheet: FilamentSheet,
    f: int,
    base: int,
    crossings: Seq<Window>,
    log: Seq<Imprint>,
    i: int,
)
    requires
        sheet.legs@.len() > 0,
    ensures
        ({
            let n = sheet.legs@.len() as int;
            let faces = leg_faces(sheet, f, base, crossings, log, n);
            let bends = elbow_faces(sheet, f, base, crossings, log, sheet.elbows@.len() as int);
            &&& faces.len() == n + 2
            &&& bends.len() == sheet.elbows@.len()
            &&& is_cap(faces[1], sheet.legs@[0].cap_in, faces[0].outer[0])
            &&& is_cap(
                faces[n + 1],
                sheet.legs@[n - 1].cap_out,
                leg_face(sheet.legs@[n - 1], f, base, n - 1, crossings, log).inner[0][0],
            )
            &&& 0 <= i < n ==> faces[if i == 0 {
                0
            } else {
                i + 1
            }] == leg_face(sheet.legs@[i], f, base, i, crossings, log)
            &&& 0 <= i < sheet.elbows@.len() ==> bends[i] == elbow_face(
                sheet,
                f,
                base,
                i,
                crossings,
                log,
            )
        }),
{
    lemma_legs(sheet, f, base, crossings, log, sheet.legs@.len() as int);
    lemma_bends(sheet, f, base, crossings, log, sheet.elbows@.len() as int);
    if 1 <= i < sheet.legs@.len() {
        let faces = leg_faces(sheet, f, base, crossings, log, sheet.legs@.len() as int);
        assert(faces[i + 1] == leg_face(sheet.legs@[i], f, base, i, crossings, log));
    }
}

proof fn lemma_bends(
    sheet: FilamentSheet,
    f: int,
    base: int,
    crossings: Seq<Window>,
    log: Seq<Imprint>,
    k: int,
)
    requires
        0 <= k,
    ensures
        elbow_faces(sheet, f, base, crossings, log, k).len() == k,
        forall|i: int|
            0 <= i < k ==> #[trigger] elbow_faces(sheet, f, base, crossings, log, k)[i]
                == elbow_face(sheet, f, base, i, crossings, log),
    decreases k,
{
    if k > 0 {
        lemma_bends(sheet, f, base, crossings, log, k - 1);
    }
}

/// The legs of a filament are numbered after those of all filaments before it.
pub proof fn law_legs_are_numbered_on(sheets: Seq<FilamentSheet>, k: int)
    requires
        0 <= k < sheets.len(),
    ensures
        leg_base(sheets, 0) == 0,
        leg_base(sheets, k + 1) == leg_base(sheets, k) + sheets[k].legs@.len(),
{
}

// ── Circles and middles ─────────────────────────────────────────────────────

/// A path is a circle if it has six points or more, a last one that is the first
/// again (1e-9) not counted, a radius (1e-9), and no point off that radius or off
/// its plane by more than the slack; its axis is turned over if it points back.
pub proof fn law_paths_that_are_circles(m: FitMeasure)
    ensures
        ({
            let tiny = Real { bits: 0x3e112e0be826d695 };
            let n = if m.count > 1 && m.closing.below(tiny) {
                m.count - 1
            } else {
                m.count as int
            };
            circle_fit(m) is Some <==> n >= 6 && !m.radius.below(tiny) && m.axis is Some && (
            forall|i: int|
                0 <= i < m.off_radius@.len() ==> !m.slack.below(#[trigger] m.off_radius@[i])) && (
            forall|i: int|
                0 <= i < m.off_plane@.len() ==> !m.slack.below(#[trigger] m.off_plane@[i]))
        }),
        circle_fit(m) matches Some(over) ==> over == points_back(m.axis->0),
{
}

/// Of a direction and its opposite one points back: the one whose longest
/// component is negative.
pub proof fn law_one_of_two_directions_points_back(u: UnitVec3, v: UnitVec3)
    requires
        !u.x.nan() && !u.y.nan() && !u.z.nan(),
        u.x.rank() != 0 || u.y.rank() != 0 || u.z.rank() != 0,
        v.x == u.x.negated() && v.y == u.y.negated() && v.z == u.z.negated(),
    ensures
        points_back(u) != points_back(v),
        points_back(u) ==> u.x.rank() < 0 || u.y.rank() < 0 || u.z.rank() < 0,
        u.x.rank() > 0 && u.y.unsigned().below(u.x) && u.z.unsigned().below(u.x) ==> !points_back(
            u,
        ),
        u.y.rank() > 0 && u.x.unsigned().below(u.y) && u.z.unsigned().below(u.y) ==> !points_back(
            u,
        ),
        u.z.rank() > 0 && u.x.unsigned().below(u.z) && u.y.unsigned().below(u.z) ==> !points_back(
            u,
        ),
{
}

/// A step of a cell's boundary that is a circle runs along the circle, with its
/// axis turned over if that points back; any other runs along its path. A step of
/// fewer than two points is none.
pub proof fn law_steps_of_cells(steps: Seq<CellStep>, k: int)
    requires
        0 <= k <= steps.len(),
    ensures
        ({
            let own = steps.take(k).filter(|s: CellStep| s.path.points@.len() >= 2);
            let uses = step_uses(steps, k);
            &&& uses.len() == own.len()
            &&& forall|i: int|
                0 <= i < own.len() ==> {
                    let fit = circle_fit(own[i].fit);
                    &&& fit == Some(false) ==> #[trigger] uses[i] == UseView::Circle(own[i].circle)
                    &&& fit == Some(true) ==> uses[i] == UseView::Circle(own[i].turned)
                    &&& fit is None ==> (uses[i] matches UseView::Path {
                        points,
                        start,
                        end,
                        mid,
                        group,
                    } && points == own[i].path.points@)
                }
        }),
    decreases k,
{
    let f = |s: CellStep| s.path.points@.len() >= 2;
    if k > 0 {
        law_steps_of_cells(steps, k - 1);
        assert(steps.take(k) =~= steps.take(k - 1).push(steps[k - 1]));
        lemma_filter_push(steps.take(k - 1), steps[k - 1], f);
        let was = step_uses(steps, k - 1);
        let uses = step_uses(steps, k);
        let own = steps.take(k).filter(f);
        assert forall|i: int| 0 <= i < own.len() implies ({
            let fit = circle_fit(own[i].fit);
            &&& fit == Some(false) ==> #[trigger] uses[i] == UseView::Circle(own[i].circle)
            &&& fit == Some(true) ==> uses[i] == UseView::Circle(own[i].turned)
            &&& fit is None ==> (uses[i] matches UseView::Path { points, start, end, mid, group }
                && points == own[i].path.points@)
        }) by {
            if i < was.len() {
                assert(uses[i] == was[i]);
            }
        }
    } else {
        reveal(Seq::filter);
    }
}

/// The middle of a path is on the first segment that reaches half its length.
pub proof fn law_middles(half: Real, ends: Seq<Real>, k: int)
    requires
        0 <= k <= ends.len() <= usize::MAX,
    ensures
        match half_way(half, ends, k) {
            MidPlace::Segment(i) => {
                &&& k <= i < ends.len()
                &&& half.at_most(ends[i as int])
                &&& forall|j: int| k <= j < i ==> !half.at_most(#[trigger] ends[j])
            },
            MidPlace::Middle => forall|j: int| k <= j < ends.len() ==> !half.at_most(#[trigger] ends[j]),
            MidPlace::First => false,
        },
    decreases ends.len() - k,
{
    if k < ends.len() && !half.at_most(ends[k]) {
        law_middles(half, ends, k + 1);
    }
}

} // verus!
