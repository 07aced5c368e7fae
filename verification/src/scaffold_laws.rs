//! What holds of every fused scaffold: each circle between two faces, and each
//! window, is used by exactly two of them.

use vstd::prelude::*;

use crate::assembly::{CircleUse, Mark, UseView, Window, marks_uses, tube_inner, window_uses};
use crate::scaffold::{
    AsmFace, FilamentSheet, Imprint, Member, cap_face, elbow_face, elbow_faces, group_in,
    group_out, grouped, leg_base, leg_face, leg_faces, marks_of, scaffold_faces, times_cut,
};
use crate::scalar::Real;

verus! {

/// How many uses are of a circle in a group.
pub open spec fn circles_in(uses: Seq<UseView>, group: u32) -> nat
    decreases uses.len(),
{
    if uses.len() == 0 {
        0
    } else {
        circles_in(uses.drop_last(), group) + (match uses.last() {
            UseView::Circle(c) if c.group == group => 1nat,
            _ => 0,
        })
    }
}

/// How many uses in all lists are of a circle in a group.
pub open spec fn circles_in_all(all: Seq<Seq<UseView>>, group: u32) -> nat
    decreases all.len(),
{
    if all.len() == 0 {
        0
    } else {
        circles_in_all(all.drop_last(), group) + circles_in(all.last(), group)
    }
}

/// How often faces use a circle in a group.
pub open spec fn circle_uses(faces: Seq<AsmFace>, group: u32) -> nat
    decreases faces.len(),
{
    if faces.len() == 0 {
        0
    } else {
        circle_uses(faces.drop_last(), group) + circles_in(faces.last().outer, group)
            + circles_in_all(faces.last().inner, group)
    }
}

spec fn hit(c: CircleUse, group: u32) -> nat {
    if c.group == group {
        1
    } else {
        0
    }
}

proof fn lemma_one_circle(c: CircleUse, group: u32)
    ensures
        circles_in(seq![UseView::Circle(c)], group) == hit(c, group),
{
    let uses = seq![UseView::Circle(c)];
    assert(uses.drop_last() =~= seq![]);
    assert(circles_in(uses.drop_last(), group) == 0);
}

proof fn lemma_window_without_circles(window: Window, against: bool, n: int, group: u32)
    ensures
        circles_in(window_uses(window, against, n), group) == 0,
    decreases n,
{
    if n > 0 {
        lemma_window_without_circles(window, against, n - 1, group);
        let so_far = window_uses(window, against, n - 1);
        let all = window_uses(window, against, n);
        if all.len() > so_far.len() {
            assert(all.drop_last() =~= so_far);
        }
    }
}

proof fn lemma_marks_without_circles(
    crossings: Seq<Window>,
    marks: Seq<Mark>,
    k: int,
    group: u32,
)
    ensures
        circles_in_all(marks_uses(crossings, marks, k), group) == 0,
    decreases k,
{
    if k > 0 {
        let so_far = marks_uses(crossings, marks, k - 1);
        let all = marks_uses(crossings, marks, k);
        lemma_marks_without_circles(crossings, marks, k - 1, group);
        assert(all.drop_last() =~= so_far);
        lemma_window_without_circles(
            crossings[marks[k - 1].crossing as int],
            (Real { bits: 0 }).below(marks[k - 1].facing),
            4,
            group,
        );
    }
}

proof fn lemma_all_add(a: Seq<Seq<UseView>>, b: Seq<Seq<UseView>>, group: u32)
    ensures
        circles_in_all(a + b, group) == circles_in_all(a, group) + circles_in_all(b, group),
    decreases b.len(),
{
    if b.len() == 0 {
        assert(a + b =~= a);
    } else {
        lemma_all_add(a, b.drop_last(), group);
        assert((a + b).drop_last() =~= a + b.drop_last());
    }
}

proof fn lemma_tube_circles(
    far: CircleUse,
    crossings: Seq<Window>,
    marks: Seq<Mark>,
    group: u32,
)
    ensures
        circles_in_all(tube_inner(far, crossings, marks), group) == hit(far, group),
{
    let first = seq![seq![UseView::Circle(far)]];
    let rest = marks_uses(crossings, marks, marks.len() as int);
    lemma_all_add(first, rest, group);
    lemma_marks_without_circles(crossings, marks, marks.len() as int, group);
    assert(first.drop_last() =~= seq![]);
    assert(circles_in_all(first.drop_last(), group) == 0);
    lemma_one_circle(far, group);
}

proof fn lemma_push_face(faces: Seq<AsmFace>, face: AsmFace, group: u32)
    ensures
        circle_uses(faces.push(face), group) == circle_uses(faces, group) + circles_in(
            face.outer,
            group,
        ) + circles_in_all(face.inner, group),
{
    assert(faces.push(face).drop_last() =~= faces);
}

proof fn lemma_add_faces(a: Seq<AsmFace>, b: Seq<AsmFace>, group: u32)
    ensures
        circle_uses(a + b, group) == circle_uses(a, group) + circle_uses(b, group),
    decreases b.len(),
{
    if b.len() == 0 {
        assert(a + b =~= a);
    } else {
        lemma_add_faces(a, b.drop_last(), group);
        assert((a + b).drop_last() =~= a + b.drop_last());
    }
}

pub open spec fn one_if(b: bool) -> nat {
    if b {
        1
    } else {
        0
    }
}

/// Where a group stands: it is the start or the end of some leg of the
/// filament after `base` legs.
proof fn lemma_leg_circles(
    sheet: FilamentSheet,
    f: int,
    base: int,
    crossings: Seq<Window>,
    log: Seq<Imprint>,
    k: int,
    i: int,
    at_end: bool,
    group: u32,
)
    requires
        0 <= k <= sheet.legs@.len(),
        0 <= base,
        2 * (base + sheet.legs@.len()) <= u32::MAX,
        group == (if at_end {
            group_out(base, i)
        } else {
            group_in(base, i)
        }),
    ensures
        circle_uses(leg_faces(sheet, f, base, crossings, log, k), group) == one_if(0 <= i < k)
            + one_if(!at_end && i == 0 && k > 0) + one_if(
            at_end && i == sheet.legs@.len() - 1 && k == sheet.legs@.len() && k > 0,
        ),
    decreases k,
{
    if k > 0 {
        let j = k - 1;
        let leg = sheet.legs@[j];
        let so_far = leg_faces(sheet, f, base, crossings, log, j);
        lemma_leg_circles(sheet, f, base, crossings, log, j, i, at_end, group);
        let rim_in = grouped(leg.rim_in, group_in(base, j));
        let rim_out = grouped(leg.rim_out, group_out(base, j));
        let tube = leg_face(leg, f, base, j, crossings, log);
        let marks = marks_of(log, Member::Leg { f: f as usize, i: j as usize });
        lemma_one_circle(rim_in, group);
        lemma_one_circle(rim_out, group);
        lemma_tube_circles(rim_out, crossings, marks, group);
        lemma_push_face(so_far, tube, group);
        assert(hit(rim_in, group) == one_if(!at_end && i == j));
        assert(hit(rim_out, group) == one_if(at_end && i == j));
        let list = so_far.push(tube);
        let cap_in = cap_face(leg.cap_in, rim_in);
        let cap_out = cap_face(leg.cap_out, rim_out);
        lemma_push_face(list, cap_in, group);
        lemma_push_face(list.push(cap_in), cap_out, group);
        lemma_push_face(list, cap_out, group);
        assert(circles_in_all(cap_in.inner, group) == 0);
        assert(circles_in_all(cap_out.inner, group) == 0);
    }
}

proof fn lemma_elbow_circles(
    sheet: FilamentSheet,
    f: int,
    base: int,
    crossings: Seq<Window>,
    log: Seq<Imprint>,
    k: int,
    i: int,
    at_end: bool,
    group: u32,
)
    requires
        0 <= k < sheet.legs@.len(),
        0 <= base,
        2 * (base + sheet.legs@.len()) <= u32::MAX,
        group == (if at_end {
            group_out(base, i)
        } else {
            group_in(base, i)
        }),
    ensures
        circle_uses(elbow_faces(sheet, f, base, crossings, log, k), group) == (if at_end {
            one_if(0 <= i < k)
        } else {
            one_if(1 <= i <= k)
        }),
    decreases k,
{
    if k > 0 {
        let j = k - 1;
        let so_far = elbow_faces(sheet, f, base, crossings, log, j);
        lemma_elbow_circles(sheet, f, base, crossings, log, j, i, at_end, group);
        let from = grouped(sheet.legs@[j].rim_out, group_out(base, j));
        let to = grouped(sheet.legs@[j + 1].rim_in, group_in(base, j + 1));
        let marks = marks_of(log, Member::Elbow { f: f as usize, i: j as usize });
        lemma_one_circle(from, group);
        lemma_tube_circles(to, crossings, marks, group);
        lemma_push_face(so_far, elbow_face(sheet, f, base, j, crossings, log), group);
        assert(hit(from, group) == one_if(at_end && i == j));
        assert(hit(to, group) == one_if(!at_end && i == j + 1));
    }
}

/// Whether each filament has a bend between every two legs.
pub open spec fn joined_up(sheets: Seq<FilamentSheet>) -> bool {
    forall|f: int|
        0 <= f < sheets.len() ==> (#[trigger] sheets[f]).elbows@.len() + 1
            == sheets[f].legs@.len()
}

pub proof fn lemma_base_step(sheets: Seq<FilamentSheet>, k: int)
    requires
        0 <= k,
    ensures
        0 <= leg_base(sheets, k) <= leg_base(sheets, k + 1),
        leg_base(sheets, k + 1) == leg_base(sheets, k) + sheets[k].legs@.len(),
    decreases k,
{
    if k > 0 {
        lemma_base_step(sheets, k - 1);
    }
}

proof fn lemma_scaffold_circles(
    sheets: Seq<FilamentSheet>,
    crossings: Seq<Window>,
    log: Seq<Imprint>,
    k: int,
    leg: int,
    at_end: bool,
    group: u32,
)
    requires
        0 <= k <= sheets.len(),
        joined_up(sheets),
        0 <= leg,
        2 * leg_base(sheets, k) <= u32::MAX,
        group == 2 * leg + (if at_end {
            1int
        } else {
            0
        }),
    ensures
        circle_uses(scaffold_faces(sheets, crossings, log, k), group) == (if leg < leg_base(
            sheets,
            k,
        ) {
            2nat
        } else {
            0
        }),
    decreases k,
{
    if k > 0 {
        let f = k - 1;
        let base = leg_base(sheets, f);
        let sheet = sheets[f];
        let n = sheet.legs@.len() as int;
        lemma_base_step(sheets, f);
        assert(sheets[f].elbows@.len() + 1 == sheets[f].legs@.len());
        lemma_scaffold_circles(sheets, crossings, log, f, leg, at_end, group);
        let i = leg - base;
        let done = scaffold_faces(sheets, crossings, log, f);
        let legs = leg_faces(sheet, f, base, crossings, log, n);
        let elbows = elbow_faces(sheet, f, base, crossings, log, n - 1);
        lemma_leg_circles(sheet, f, base, crossings, log, n, i, at_end, group);
        lemma_elbow_circles(sheet, f, base, crossings, log, n - 1, i, at_end, group);
        lemma_add_faces(done, legs, group);
        lemma_add_faces(done + legs, elbows, group);
    }
}

/// In a scaffold whose filaments have a bend between every two legs, the circle
/// at each end of each leg is used by exactly two faces: the leg's tube, and
/// the bend or the disk that it meets there.
pub proof fn law_rims_are_shared_by_two(
    sheets: Seq<FilamentSheet>,
    crossings: Seq<Window>,
    log: Seq<Imprint>,
    group: u32,
)
    requires
        joined_up(sheets),
        2 * leg_base(sheets, sheets.len() as int) <= u32::MAX,
        group < 2 * leg_base(sheets, sheets.len() as int),
    ensures
        circle_uses(scaffold_faces(sheets, crossings, log, sheets.len() as int), group) == 2,
{
    let leg = group as int / 2;
    lemma_scaffold_circles(
        sheets,
        crossings,
        log,
        sheets.len() as int,
        leg,
        group % 2 == 1,
        group,
    );
}

/// How many uses are of a path in a group.
pub open spec fn paths_in(uses: Seq<UseView>, group: u32) -> nat
    decreases uses.len(),
{
    if uses.len() == 0 {
        0
    } else {
        paths_in(uses.drop_last(), group) + (match uses.last() {
            UseView::Path { points, start, end, mid, group: g } if g == group => 1nat,
            _ => 0,
        })
    }
}

/// How many uses in all lists are of a path in a group.
pub open spec fn paths_in_all(all: Seq<Seq<UseView>>, group: u32) -> nat
    decreases all.len(),
{
    if all.len() == 0 {
        0
    } else {
        paths_in_all(all.drop_last(), group) + paths_in(all.last(), group)
    }
}

/// How often faces use a path in a group.
pub open spec fn path_uses(faces: Seq<AsmFace>, group: u32) -> nat
    decreases faces.len(),
{
    if faces.len() == 0 {
        0
    } else {
        path_uses(faces.drop_last(), group) + paths_in(faces.last().outer, group) + paths_in_all(
            faces.last().inner,
            group,
        )
    }
}

/// How many pieces a window has.
pub open spec fn pieces(window: Window) -> nat {
    window_uses(window, false, 4).len()
}

/// Whether each window has the id of its place.
pub open spec fn numbered(crossings: Seq<Window>) -> bool {
    forall|k: int| 0 <= k < crossings.len() ==> (#[trigger] crossings[k]).id == k
}

proof fn lemma_window_paths(window: Window, against: bool, n: int, group: u32)
    requires
        0 <= n <= 4,
    ensures
        paths_in(window_uses(window, against, n), group) == (if window.id == group {
            window_uses(window, against, n).len()
        } else {
            0
        }),
    decreases n,
{
    if n > 0 {
        lemma_window_paths(window, against, n - 1, group);
        let so_far = window_uses(window, against, n - 1);
        let all = window_uses(window, against, n);
        if all.len() > so_far.len() {
            assert(all.drop_last() =~= so_far);
        }
    }
}

/// A window has as many pieces one way as the other.
proof fn lemma_pieces_either_way(window: Window, against: bool)
    ensures
        window_uses(window, against, 4).len() == pieces(window),
{
    reveal_with_fuel(window_uses, 5);
}

/// How many marks are of a window.
pub open spec fn mark_count(marks: Seq<Mark>, id: int) -> nat
    decreases marks.len(),
{
    if marks.len() == 0 {
        0
    } else {
        mark_count(marks.drop_last(), id) + one_if(marks.last().crossing == id)
    }
}

proof fn lemma_marks_paths(
    crossings: Seq<Window>,
    marks: Seq<Mark>,
    k: int,
    group: u32,
)
    requires
        0 <= k <= marks.len(),
        numbered(crossings),
        group < crossings.len(),
        forall|i: int| 0 <= i < marks.len() ==> (#[trigger] marks[i]).crossing < crossings.len(),
    ensures
        paths_in_all(marks_uses(crossings, marks, k), group) == pieces(crossings[group as int])
            * mark_count(marks.take(k), group as int),
    decreases k,
{
    let p = pieces(crossings[group as int]);
    if k > 0 {
        let so_far = marks_uses(crossings, marks, k - 1);
        let all = marks_uses(crossings, marks, k);
        lemma_marks_paths(crossings, marks, k - 1, group);
        assert(all.drop_last() =~= so_far);
        let mark = marks[k - 1];
        let window = crossings[mark.crossing as int];
        let against = (Real { bits: 0 }).below(mark.facing);
        lemma_window_paths(window, against, 4, group);
        lemma_pieces_either_way(window, against);
        let few = mark_count(marks.take(k - 1), group as int);
        assert(marks.take(k).drop_last() =~= marks.take(k - 1));
        let more = one_if(mark.crossing == group);
        assert(window.id == mark.crossing);
        assert(p * (few + more) == p * few + p * more) by (nonlinear_arith);
        assert(p * 1 == p && p * 0 == 0) by (nonlinear_arith);
    } else {
        assert(mark_count(marks.take(0), group as int) == 0);
        assert(p * 0 == 0) by (nonlinear_arith);
    }
}

proof fn lemma_paths_add(a: Seq<Seq<UseView>>, b: Seq<Seq<UseView>>, group: u32)
    ensures
        paths_in_all(a + b, group) == paths_in_all(a, group) + paths_in_all(b, group),
    decreases b.len(),
{
    if b.len() == 0 {
        assert(a + b =~= a);
    } else {
        lemma_paths_add(a, b.drop_last(), group);
        assert((a + b).drop_last() =~= a + b.drop_last());
    }
}

proof fn lemma_circle_is_no_path(c: CircleUse, group: u32)
    ensures
        paths_in(seq![UseView::Circle(c)], group) == 0,
{
    let uses = seq![UseView::Circle(c)];
    assert(uses.drop_last() =~= seq![]);
    assert(paths_in(uses.drop_last(), group) == 0);
}

proof fn lemma_tube_paths(far: CircleUse, crossings: Seq<Window>, marks: Seq<Mark>, group: u32)
    requires
        numbered(crossings),
        group < crossings.len(),
        forall|i: int| 0 <= i < marks.len() ==> (#[trigger] marks[i]).crossing < crossings.len(),
    ensures
        paths_in_all(tube_inner(far, crossings, marks), group) == pieces(crossings[group as int])
            * mark_count(marks, group as int),
{
    let first = seq![seq![UseView::Circle(far)]];
    lemma_paths_add(first, marks_uses(crossings, marks, marks.len() as int), group);
    lemma_marks_paths(crossings, marks, marks.len() as int, group);
    assert(marks.take(marks.len() as int) =~= marks);
    assert(first.drop_last() =~= seq![]);
    assert(paths_in_all(first.drop_last(), group) == 0);
    lemma_circle_is_no_path(far, group);
}

proof fn lemma_push_face_paths(faces: Seq<AsmFace>, face: AsmFace, group: u32)
    ensures
        path_uses(faces.push(face), group) == path_uses(faces, group) + paths_in(
            face.outer,
            group,
        ) + paths_in_all(face.inner, group),
{
    assert(faces.push(face).drop_last() =~= faces);
}

proof fn lemma_add_faces_paths(a: Seq<AsmFace>, b: Seq<AsmFace>, group: u32)
    ensures
        path_uses(a + b, group) == path_uses(a, group) + path_uses(b, group),
    decreases b.len(),
{
    if b.len() == 0 {
        assert(a + b =~= a);
    } else {
        lemma_add_faces_paths(a, b.drop_last(), group);
        assert((a + b).drop_last() =~= a + b.drop_last());
    }
}

/// How many marks of a window the first `k` legs of filament `f` have.
pub open spec fn leg_marks(log: Seq<Imprint>, f: int, k: int, id: int) -> nat
    decreases k,
{
    if k <= 0 {
        0
    } else {
        leg_marks(log, f, k - 1, id) + mark_count(
            marks_of(log, Member::Leg { f: f as usize, i: (k - 1) as usize }),
            id,
        )
    }
}

/// How many marks of a window the first `k` bends of filament `f` have.
pub open spec fn elbow_marks(log: Seq<Imprint>, f: int, k: int, id: int) -> nat
    decreases k,
{
    if k <= 0 {
        0
    } else {
        elbow_marks(log, f, k - 1, id) + mark_count(
            marks_of(log, Member::Elbow { f: f as usize, i: (k - 1) as usize }),
            id,
        )
    }
}

/// How many marks of a window the first `k` filaments have.
pub open spec fn all_marks(sheets: Seq<FilamentSheet>, log: Seq<Imprint>, k: int, id: int) -> nat
    decreases k,
{
    if k <= 0 {
        0
    } else {
        all_marks(sheets, log, k - 1, id) + leg_marks(
            log,
            k - 1,
            sheets[k - 1].legs@.len() as int,
            id,
        ) + elbow_marks(log, k - 1, sheets[k - 1].elbows@.len() as int, id)
    }
}

/// Whether a member is one of the first `k` filaments'.
pub open spec fn present(sheets: Seq<FilamentSheet>, member: Member, k: int) -> bool {
    match member {
        Member::Leg { f, i } => f < k && i < sheets[f as int].legs@.len(),
        Member::Elbow { f, i } => f < k && i < sheets[f as int].elbows@.len(),
    }
}

proof fn lemma_leg_marks_step(log: Seq<Imprint>, f: int, k: int, id: int)
    requires
        log.len() > 0,
        0 <= f <= usize::MAX,
        0 <= k <= usize::MAX,
    ensures
        leg_marks(log, f, k, id) == leg_marks(log.drop_last(), f, k, id) + one_if(
            log.last().mark.crossing == id && (log.last().member matches Member::Leg { f: g, i }
                && g == f && i < k),
        ),
    decreases k,
{
    if k > 0 {
        lemma_leg_marks_step(log, f, k - 1, id);
        let member = Member::Leg { f: f as usize, i: (k - 1) as usize };
        let few = marks_of(log.drop_last(), member);
        let all = marks_of(log, member);
        if log.last().member == member {
            assert(all.drop_last() =~= few);
        }
    }
}

proof fn lemma_elbow_marks_step(log: Seq<Imprint>, f: int, k: int, id: int)
    requires
        log.len() > 0,
        0 <= f <= usize::MAX,
        0 <= k <= usize::MAX,
    ensures
        elbow_marks(log, f, k, id) == elbow_marks(log.drop_last(), f, k, id) + one_if(
            log.last().mark.crossing == id && (log.last().member matches Member::Elbow { f: g, i }
                && g == f && i < k),
        ),
    decreases k,
{
    if k > 0 {
        lemma_elbow_marks_step(log, f, k - 1, id);
        let member = Member::Elbow { f: f as usize, i: (k - 1) as usize };
        let few = marks_of(log.drop_last(), member);
        let all = marks_of(log, member);
        if log.last().member == member {
            assert(all.drop_last() =~= few);
        }
    }
}

/// Whether everything in a scaffold can be counted.
pub open spec fn counted(sheets: Seq<FilamentSheet>) -> bool {
    &&& sheets.len() <= usize::MAX
    &&& forall|f: int|
        0 <= f < sheets.len() ==> (#[trigger] sheets[f]).legs@.len() <= usize::MAX
            && sheets[f].elbows@.len() <= usize::MAX
}

proof fn lemma_all_marks_step(sheets: Seq<FilamentSheet>, log: Seq<Imprint>, k: int, id: int)
    requires
        log.len() > 0,
        0 <= k <= sheets.len(),
        counted(sheets),
    ensures
        all_marks(sheets, log, k, id) == all_marks(sheets, log.drop_last(), k, id) + one_if(
            log.last().mark.crossing == id && present(sheets, log.last().member, k),
        ),
    decreases k,
{
    if k > 0 {
        assert(sheets[k - 1].legs@.len() <= usize::MAX);
        lemma_all_marks_step(sheets, log, k - 1, id);
        lemma_leg_marks_step(log, k - 1, sheets[k - 1].legs@.len() as int, id);
        lemma_elbow_marks_step(log, k - 1, sheets[k - 1].elbows@.len() as int, id);
    }
}

proof fn lemma_no_marks(sheets: Seq<FilamentSheet>, k: int, id: int)
    ensures
        all_marks(sheets, seq![], k, id) == 0,
    decreases k,
{
    if k > 0 {
        lemma_no_marks(sheets, k - 1, id);
        lemma_no_leg_marks(k - 1, sheets[k - 1].legs@.len() as int, id);
        lemma_no_elbow_marks(k - 1, sheets[k - 1].elbows@.len() as int, id);
    }
}

proof fn lemma_no_leg_marks(f: int, k: int, id: int)
    ensures
        leg_marks(seq![], f, k, id) == 0,
    decreases k,
{
    if k > 0 {
        lemma_no_leg_marks(f, k - 1, id);
    }
}

proof fn lemma_no_elbow_marks(f: int, k: int, id: int)
    ensures
        elbow_marks(seq![], f, k, id) == 0,
    decreases k,
{
    if k > 0 {
        lemma_no_elbow_marks(f, k - 1, id);
    }
}

/// Members that are there have all the marks.
pub proof fn lemma_marks_are_cuts(sheets: Seq<FilamentSheet>, log: Seq<Imprint>, id: int)
    requires
        counted(sheets),
        forall|i: int|
            0 <= i < log.len() ==> present(
                sheets,
                (#[trigger] log[i]).member,
                sheets.len() as int,
            ),
    ensures
        all_marks(sheets, log, sheets.len() as int, id) == times_cut(log, id),
    decreases log.len(),
{
    if log.len() > 0 {
        lemma_all_marks_step(sheets, log, sheets.len() as int, id);
        assert(present(sheets, log[log.len() - 1].member, sheets.len() as int));
        assert forall|i: int| 0 <= i < log.len() - 1 implies present(
            sheets,
            (#[trigger] log.drop_last()[i]).member,
            sheets.len() as int,
        ) by {
            assert(log.drop_last()[i] == log[i]);
        }
        lemma_marks_are_cuts(sheets, log.drop_last(), id);
    } else {
        assert(log =~= seq![]);
        lemma_no_marks(sheets, sheets.len() as int, id);
    }
}

pub proof fn lemma_marks_known(log: Seq<Imprint>, member: Member, limit: int)
    requires
        forall|i: int| 0 <= i < log.len() ==> (#[trigger] log[i]).mark.crossing < limit,
    ensures
        forall|i: int|
            0 <= i < marks_of(log, member).len() ==> (#[trigger] marks_of(log, member)[i]).crossing
                < limit,
    decreases log.len(),
{
    if log.len() > 0 {
        assert(log[log.len() - 1].mark.crossing < limit);
        assert forall|i: int| 0 <= i < log.len() - 1 implies (#[trigger] log.drop_last()[i])
            .mark.crossing < limit by {
            assert(log.drop_last()[i] == log[i]);
        }
        lemma_marks_known(log.drop_last(), member, limit);
        let few = marks_of(log.drop_last(), member);
        let all = marks_of(log, member);
        assert forall|i: int| 0 <= i < all.len() implies (#[trigger] all[i]).crossing < limit by {
            if i < few.len() {
                assert(few[i].crossing < limit);
            }
        }
    }
}

proof fn lemma_leg_paths(
    sheet: FilamentSheet,
    f: int,
    base: int,
    crossings: Seq<Window>,
    log: Seq<Imprint>,
    k: int,
    group: u32,
)
    requires
        0 <= k <= sheet.legs@.len(),
        numbered(crossings),
        group < crossings.len(),
        forall|i: int|
            0 <= i < log.len() ==> (#[trigger] log[i]).mark.crossing < crossings.len(),
    ensures
        path_uses(leg_faces(sheet, f, base, crossings, log, k), group) == pieces(
            crossings[group as int],
        ) * leg_marks(log, f, k, group as int),
    decreases k,
{
    let p = pieces(crossings[group as int]);
    if k > 0 {
        let j = k - 1;
        let leg = sheet.legs@[j];
        let so_far = leg_faces(sheet, f, base, crossings, log, j);
        lemma_leg_paths(sheet, f, base, crossings, log, j, group);
        let rim_in = grouped(leg.rim_in, group_in(base, j));
        let rim_out = grouped(leg.rim_out, group_out(base, j));
        let tube = leg_face(leg, f, base, j, crossings, log);
        let member = Member::Leg { f: f as usize, i: j as usize };
        let marks = marks_of(log, member);
        lemma_marks_known(log, member, crossings.len() as int);
        lemma_circle_is_no_path(rim_in, group);
        lemma_circle_is_no_path(rim_out, group);
        lemma_tube_paths(rim_out, crossings, marks, group);
        lemma_push_face_paths(so_far, tube, group);
        let list = so_far.push(tube);
        let cap_in = cap_face(leg.cap_in, rim_in);
        let cap_out = cap_face(leg.cap_out, rim_out);
        lemma_push_face_paths(list, cap_in, group);
        lemma_push_face_paths(list.push(cap_in), cap_out, group);
        lemma_push_face_paths(list, cap_out, group);
        assert(paths_in_all(cap_in.inner, group) == 0);
        assert(paths_in_all(cap_out.inner, group) == 0);
        let few = leg_marks(log, f, j, group as int);
        let more = mark_count(marks, group as int);
        assert(p * (few + more) == p * few + p * more) by (nonlinear_arith);
    } else {
        assert(p * 0 == 0) by (nonlinear_arith);
    }
}

proof fn lemma_elbow_paths(
    sheet: FilamentSheet,
    f: int,
    base: int,
    crossings: Seq<Window>,
    log: Seq<Imprint>,
    k: int,
    group: u32,
)
    requires
        0 <= k <= sheet.elbows@.len(),
        numbered(crossings),
        group < crossings.len(),
        forall|i: int|
            0 <= i < log.len() ==> (#[trigger] log[i]).mark.crossing < crossings.len(),
    ensures
        path_uses(elbow_faces(sheet, f, base, crossings, log, k), group) == pieces(
            crossings[group as int],
        ) * elbow_marks(log, f, k, group as int),
    decreases k,
{
    let p = pieces(crossings[group as int]);
    if k > 0 {
        let j = k - 1;
        let so_far = elbow_faces(sheet, f, base, crossings, log, j);
        lemma_elbow_paths(sheet, f, base, crossings, log, j, group);
        let from = grouped(sheet.legs@[j].rim_out, group_out(base, j));
        let to = grouped(sheet.legs@[j + 1].rim_in, group_in(base, j + 1));
        let member = Member::Elbow { f: f as usize, i: j as usize };
        let marks = marks_of(log, member);
        lemma_marks_known(log, member, crossings.len() as int);
        lemma_circle_is_no_path(from, group);
        lemma_tube_paths(to, crossings, marks, group);
        lemma_push_face_paths(
            so_far,
            elbow_face(sheet, f, base, j, crossings, log),
            group,
        );
        let few = elbow_marks(log, f, j, group as int);
        let more = mark_count(marks, group as int);
        assert(p * (few + more) == p * few + p * more) by (nonlinear_arith);
    } else {
        assert(p * 0 == 0) by (nonlinear_arith);
    }
}

proof fn lemma_scaffold_paths(
    sheets: Seq<FilamentSheet>,
    crossings: Seq<Window>,
    log: Seq<Imprint>,
    k: int,
    group: u32,
)
    requires
        0 <= k <= sheets.len(),
        numbered(crossings),
        group < crossings.len(),
        forall|i: int|
            0 <= i < log.len() ==> (#[trigger] log[i]).mark.crossing < crossings.len(),
    ensures
        path_uses(scaffold_faces(sheets, crossings, log, k), group) == pieces(
            crossings[group as int],
        ) * all_marks(sheets, log, k, group as int),
    decreases k,
{
    let p = pieces(crossings[group as int]);
    if k > 0 {
        let f = k - 1;
        let base = leg_base(sheets, f);
        let sheet = sheets[f];
        lemma_scaffold_paths(sheets, crossings, log, f, group);
        let done = scaffold_faces(sheets, crossings, log, f);
        let n = sheet.legs@.len() as int;
        let m = sheet.elbows@.len() as int;
        let legs = leg_faces(sheet, f, base, crossings, log, n);
        let elbows = elbow_faces(sheet, f, base, crossings, log, m);
        lemma_leg_paths(sheet, f, base, crossings, log, n, group);
        lemma_elbow_paths(sheet, f, base, crossings, log, m, group);
        lemma_add_faces_paths(done, legs, group);
        lemma_add_faces_paths(done + legs, elbows, group);
        let a = all_marks(sheets, log, f, group as int);
        let b = leg_marks(log, f, n, group as int);
        let c = elbow_marks(log, f, m, group as int);
        assert(p * (a + b + c) == p * a + p * b + p * c) by (nonlinear_arith);
    } else {
        assert(p * 0 == 0) by (nonlinear_arith);
    }
}

/// Each piece of each window is used exactly twice: every window is cut into
/// two members, and each of these is one face of the scaffold.
pub proof fn law_windows_are_shared_by_two(
    sheets: Seq<FilamentSheet>,
    crossings: Seq<Window>,
    log: Seq<Imprint>,
    id: u32,
)
    requires
        counted(sheets),
        numbered(crossings),
        id < crossings.len(),
        times_cut(log, id as int) == 2,
        forall|i: int|
            0 <= i < log.len() ==> (#[trigger] log[i]).mark.crossing < crossings.len() && present(
                sheets,
                log[i].member,
                sheets.len() as int,
            ),
    ensures
        path_uses(scaffold_faces(sheets, crossings, log, sheets.len() as int), id) == 2 * pieces(
            crossings[id as int],
        ),
{
    lemma_scaffold_paths(sheets, crossings, log, sheets.len() as int, id);
    assert forall|i: int| 0 <= i < log.len() implies present(
        sheets,
        (#[trigger] log[i]).member,
        sheets.len() as int,
    ) by {}
    lemma_marks_are_cuts(sheets, log, id as int);
    let p = pieces(crossings[id as int]);
    assert(p * 2 == 2 * p) by (nonlinear_arith);
}

} // verus!
