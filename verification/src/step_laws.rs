//! What holds of every STEP file that is written.

use vstd::prelude::*;

use crate::bounds::{
    ArcSheet, CircleSheet, Emitted, EllipseSheet, FaceSheet, StepPoint, arc_key, circle_key,
    ellipse_key, line_key, shared_arc,
};
use crate::entities::Face;
use crate::geometry::{Ellipse3, Point3, UnitVec3};
use crate::growth::{
    lemma_advanced_face, lemma_circle_bound, lemma_circle_curve, lemma_ellipse_bound,
    lemma_segment, lemma_vertex,
};
use crate::scalar::Real;
use crate::script::{Glyph, decimal, digit};
use crate::step::{GridKey, StepCurveKey, StepState, Way};
use crate::writer::label_text;

verus! {

/// Every vertex and edge curve that is remembered has been emitted, and the
/// curve of a segment starts at one end of it.
pub open spec fn sound(state: StepState) -> bool {
    &&& forall|p: GridKey| #[trigger]
        state.vertices.dom().contains(p) ==> 1 <= state.vertices[p] <= state.counter
    &&& forall|k: StepCurveKey| #[trigger]
        state.edges.dom().contains(k) ==> 1 <= state.edges[k].0 <= state.counter
    &&& forall|v1: usize, v2: usize|
        #![trigger state.edges.dom().contains(StepCurveKey::Line { v1, v2 })]
        state.edges.dom().contains(StepCurveKey::Line { v1, v2 }) ==> state.edges[
            StepCurveKey::Line { v1, v2 }
        ].1 == v1 || state.edges[StepCurveKey::Line { v1, v2 }].1 == v2
}

/// Whether one text is how another begins.
pub open spec fn begins(head: Seq<Glyph>, whole: Seq<Glyph>) -> bool {
    head.len() <= whole.len() && whole.take(head.len() as int) == head
}

/// Whether the entities of one state are the first of another, and there are as
/// many more as there are more ids.
pub open spec fn lines_stay(s: StepState, t: StepState) -> bool {
    &&& s.lines.len() <= t.lines.len()
    &&& t.lines.len() - s.lines.len() == t.counter - s.counter
    &&& forall|i: int| 0 <= i < s.lines.len() ==> #[trigger] t.lines[i] == s.lines[i]
}

/// One state comes after another: ids go up, what was written stays written,
/// and what is remembered stays as it is.
pub open spec fn after(s: StepState, t: StepState) -> bool {
    &&& s.counter <= t.counter
    &&& begins(s.out, t.out)
    &&& lines_stay(s, t)
    &&& forall|p: GridKey| #[trigger]
        s.vertices.dom().contains(p) ==> t.vertices.dom().contains(p) && t.vertices[p]
            == s.vertices[p]
    &&& forall|k: StepCurveKey| #[trigger]
        s.edges.dom().contains(k) ==> t.edges.dom().contains(k) && t.edges[k] == s.edges[k]
    &&& sound(s) && t.counter <= usize::MAX ==> sound(t)
}

/// Emitting a face takes back nothing: what was written stays, ids only go up,
/// vertices and edge curves that other faces may share stay what they are, and
/// every one of them has been emitted.
pub proof fn law_faces_only_add(state: StepState, face: Face, sheet: FaceSheet)
    ensures
        after(state, state.advanced_face(face, sheet)),
        state.counter < state.advanced_face(face, sheet).counter,
        sound(StepState::start()),
        sound(state.cleared()),
{
    lemma_advanced_face(state, face, sheet);
}

/// A circle that bounds two faces of a shell has one edge curve, and the two
/// run along it in opposite directions, whatever came between them.
pub proof fn law_shared_circle(
    state: StepState,
    centre: Point3,
    normal: UnitVec3,
    radius: Real,
    sheet: CircleSheet,
    outer: bool,
    orient: bool,
    later: StepState,
    centre2: Point3,
    normal2: UnitVec3,
    radius2: Real,
    sheet2: CircleSheet,
    outer2: bool,
    orient2: bool,
)
    requires
        !state.edges.dom().contains(circle_key(sheet)),
        after(state.circle_bound(centre, normal, radius, sheet, outer, orient), later),
        circle_key(sheet2) == circle_key(sheet),
    ensures
        ({
            let made = state.circle_curve(centre, normal, radius, sheet, orient);
            let curve = made.edges[circle_key(sheet)].0;
            &&& state.circle_bound(centre, normal, radius, sheet, outer, orient) == made.oriented(
                curve,
                Way::Round,
                orient,
            ).single_bound(outer)
            &&& later.circle_bound(centre2, normal2, radius2, sheet2, outer2, orient2)
                == later.oriented(curve, Way::Round, !orient).single_bound(outer2)
        }),
{
    let made = state.circle_curve(centre, normal, radius, sheet, orient);
    let bound = state.circle_bound(centre, normal, radius, sheet, outer, orient);
    lemma_circle_curve(state, centre, normal, radius, sheet, orient);
    lemma_circle_bound(state, centre, normal, radius, sheet, outer, orient);
    assert(bound.edges.dom().contains(circle_key(sheet)));
    assert(later.edges.dom().contains(circle_key(sheet)));
}

/// An ellipse that bounds two faces of a shell has one edge curve, and the two
/// run along it in opposite directions, whatever came between them.
pub proof fn law_shared_ellipse(
    state: StepState,
    ellipse: Ellipse3,
    sheet: EllipseSheet,
    outer: bool,
    orient: bool,
    later: StepState,
    ellipse2: Ellipse3,
    sheet2: EllipseSheet,
    outer2: bool,
    orient2: bool,
)
    requires
        !state.edges.dom().contains(ellipse_key(sheet)),
        after(state.ellipse_bound(ellipse, sheet, outer, orient), later),
        ellipse_key(sheet2) == ellipse_key(sheet),
    ensures
        ({
            let made = state.ellipse_curve(ellipse, sheet, orient);
            let curve = made.edges[ellipse_key(sheet)].0;
            &&& state.ellipse_bound(ellipse, sheet, outer, orient) == made.oriented(
                curve,
                Way::Round,
                orient,
            ).single_bound(outer)
            &&& later.ellipse_bound(ellipse2, sheet2, outer2, orient2) == later.oriented(
                curve,
                Way::Round,
                !orient,
            ).single_bound(outer2)
        }),
{
    let bound = state.ellipse_bound(ellipse, sheet, outer, orient);
    lemma_ellipse_bound(state, ellipse, sheet, outer, orient);
    assert(bound.edges.dom().contains(ellipse_key(sheet)));
    assert(later.edges.dom().contains(ellipse_key(sheet)));
}

/// A straight edge between two vertices has one edge curve, and two faces that
/// run along it from opposite ends use it in opposite directions.
pub proof fn law_shared_line(
    state: StepState,
    at: Point3,
    dir: UnitVec3,
    from: usize,
    to: usize,
    point_label: Seq<char>,
    dir_label: Seq<char>,
    later: StepState,
)
    requires
        from != to,
        sound(state),
        state.segment(at, dir, from, to, point_label, dir_label).counter <= usize::MAX,
        after(state.segment(at, dir, from, to, point_label, dir_label), later),
    ensures
        ({
            let made = state.segment(at, dir, from, to, point_label, dir_label);
            let curve = made.edges[line_key(from, to)].0;
            exists|same: bool|
                made.used_from(line_key(from, to), from) == #[trigger] made.oriented(
                    curve,
                    Way::From(from),
                    same,
                )
                    && later.used_from(line_key(to, from), to) == later.oriented(
                    curve,
                    Way::From(to),
                    !same,
                )
        }),
{
    let made = state.segment(at, dir, from, to, point_label, dir_label);
    let key = line_key(from, to);
    lemma_segment(state, at, dir, from, to, point_label, dir_label);
    assert(sound(made));
    assert(key == line_key(to, from));
    assert(made.edges.dom().contains(key));
    assert(later.edges[key] == made.edges[key]);
    match key {
        StepCurveKey::Line { v1, v2 } => {
            assert(made.edges[StepCurveKey::Line { v1, v2 }].1 == v1 || made.edges[
                StepCurveKey::Line { v1, v2 }
            ].1 == v2);
        },
        _ => {},
    }
    let same = made.edges[key].1 == from;
    assert(made.used_from(key, from) == made.oriented(made.edges[key].0, Way::From(from), same));
    assert(later.used_from(line_key(to, from), to) == later.oriented(made.edges[key].0, Way::From(to), !same));
}

/// An arc between two vertices has one edge curve, and two faces that run along
/// it from opposite ends use it in opposite directions, whatever came between
/// them.
pub proof fn law_shared_arc(
    done: Emitted,
    from: StepPoint,
    to: StepPoint,
    arc: ArcSheet,
    later: Emitted,
    from2: StepPoint,
    to2: StepPoint,
    arc2: ArcSheet,
)
    requires
        !done.state.edges.dom().contains(arc_key(from.key, to.key, arc)),
        done.state.vertex_at(from) != done.state.vertex(from).vertex_at(to),
        after(shared_arc(done, from, to, arc).state, later.state),
        from2.key == to.key,
        to2.key == from.key,
        arc_key(from2.key, to2.key, arc2) == arc_key(to.key, from.key, arc),
    ensures
        ({
            let key = arc_key(from.key, to.key, arc);
            let made = done.state.vertex(from).vertex(to).arc_curve(
                arc,
                key,
                done.state.vertex_at(from),
                done.state.vertex(from).vertex_at(to),
            );
            let curve = made.edges[key].0;
            &&& shared_arc(done, from, to, arc).state == made.oriented(
                curve,
                Way::From(done.state.vertex_at(from)),
                true,
            )
            &&& shared_arc(later, from2, to2, arc2).state == later.state.oriented(
                curve,
                Way::From(done.state.vertex(from).vertex_at(to)),
                false,
            )
        }),
{
    let key = arc_key(from.key, to.key, arc);
    let s = done.state;
    let s1 = s.vertex(from);
    let s2 = s1.vertex(to);
    reveal(shared_arc);
    lemma_vertex(s, from);
    lemma_vertex(s1, to);
    let v_from = s.vertex_at(from);
    let v_to = s1.vertex_at(to);
    let made = s2.arc_curve(arc, key, v_from, v_to);
    assert(!s2.edges.dom().contains(key));
    assert(made.edges.dom().contains(key));
    assert(made.edges[key].1 == v_from);
    assert(key == arc_key(to.key, from.key, arc));
    let used = made.used_from(key, v_from);
    assert(used == shared_arc(done, from, to, arc).state);
    assert(used.edges == made.edges);
    assert(used.vertices == made.vertices);
    assert(made.vertices == s2.vertices);
    assert(s2.vertices[from.key] == v_from) by {
        assert(s1.vertices.dom().contains(from.key));
    }
    assert(later.state.vertices.dom().contains(from.key));
    assert(later.state.vertices.dom().contains(to.key));
    assert(later.state.edges.dom().contains(key));
    assert(later.state.vertex(from2) == later.state);
    assert(later.state.vertex(to2) == later.state);
    assert(later.state.vertex_at(from2) == v_to);
}

proof fn lemma_digit_injective(a: int, b: int)
    requires
        0 <= a < 10,
        0 <= b < 10,
        digit(a) == digit(b),
    ensures
        a == b,
{
}

proof fn lemma_decimal_last(a: nat)
    ensures
        decimal(a).len() >= 1,
        decimal(a).last() == digit((a % 10) as int),
{
    if a >= 10 {
        let head = decimal(a / 10);
        assert(decimal(a) == head.push(digit((a % 10) as int)));
        assert(head.push(digit((a % 10) as int)).last() == digit((a % 10) as int));
    } else {
        assert(decimal(a) == seq![digit(a as int)]);
        assert(seq![digit(a as int)].last() == digit(a as int));
        assert(a % 10 == a);
    }
}

/// Different whole numbers have different digits.
pub proof fn law_decimal_is_unambiguous(a: nat, b: nat)
    requires
        decimal(a) == decimal(b),
    ensures
        a == b,
    decreases a,
{
    lemma_decimal_len(a);
    lemma_decimal_len(b);
    lemma_decimal_last(a);
    lemma_decimal_last(b);
    if a < 10 || b < 10 {
        assert(decimal(a).last() == decimal(b).last());
        if a >= 10 {
            lemma_decimal_len(a / 10);
        }
        if b >= 10 {
            lemma_decimal_len(b / 10);
        }
        lemma_digit_injective(a as int, b as int);
    } else {
        assert(decimal(a).drop_last() =~= decimal(a / 10));
        assert(decimal(b).drop_last() =~= decimal(b / 10));
        law_decimal_is_unambiguous(a / 10, b / 10);
        assert(decimal(a).last() == decimal(b).last());
        lemma_digit_injective((a % 10) as int, (b % 10) as int);
    }
}

proof fn lemma_decimal_len(a: nat)
    ensures
        decimal(a).len() >= 1,
        a >= 10 ==> decimal(a).len() >= 2,
    decreases a,
{
    if a >= 10 {
        lemma_decimal_len(a / 10);
    }
}

/// No digit is an underscore.
proof fn lemma_decimal_digits(a: nat, i: int)
    requires
        0 <= i < decimal(a).len(),
    ensures
        decimal(a)[i] != '_',
    decreases a,
{
    if a >= 10 && i < decimal(a).len() - 1 {
        lemma_decimal_digits(a / 10, i);
    }
}

proof fn lemma_label_places(base: Seq<char>, place: nat)
    ensures
        label_text(base, place).len() == base.len() + 1 + decimal(place).len(),
        label_text(base, place)[base.len() as int] == '_',
        forall|i: int|
            0 <= i < decimal(place).len() ==> label_text(base, place)[base.len() + 1 + i]
                == #[trigger] decimal(place)[i],
        forall|i: int| 0 <= i < base.len() ==> label_text(base, place)[i] == #[trigger] base[i],
{
    let head = base + seq!['_'];
    assert(head[base.len() as int] == seq!['_'][0]);
    assert(label_text(base, place)[base.len() as int] == head[base.len() as int]);
}

/// Solids at different places have different labels, whatever their names.
pub proof fn law_labels_are_unique(base1: Seq<char>, place1: nat, base2: Seq<char>, place2: nat)
    requires
        label_text(base1, place1) == label_text(base2, place2),
    ensures
        place1 == place2,
        base1 == base2,
{
    let whole = label_text(base1, place1);
    let d1 = decimal(place1);
    let d2 = decimal(place2);
    lemma_label_places(base1, place1);
    lemma_label_places(base2, place2);
    if d1.len() < d2.len() {
        let i = d2.len() - d1.len() - 1;
        lemma_decimal_digits(place2, i);
        assert(whole[base2.len() + 1 + i] == d2[i]);
    } else if d2.len() < d1.len() {
        let i = d1.len() - d2.len() - 1;
        lemma_decimal_digits(place1, i);
        assert(whole[base1.len() + 1 + i] == d1[i]);
    }
    assert(d1 =~= d2) by {
        assert forall|i: int| 0 <= i < d1.len() implies d1[i] == d2[i] by {
            assert(d1[i] == whole[base1.len() + 1 + i]);
            assert(d2[i] == whole[base2.len() + 1 + i]);
        }
    }
    law_decimal_is_unambiguous(place1, place2);
    assert(base1 =~= base2) by {
        assert forall|i: int| 0 <= i < base1.len() implies base1[i] == base2[i] by {
            assert(whole[i] == base1[i] && whole[i] == base2[i]);
        }
    }
}

} // verus!
