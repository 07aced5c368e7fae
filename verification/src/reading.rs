//! What the entities of a file say to whoever reads them.
//!
//! An entity is a type, a label and parameters, with commas between, in
//! brackets. The laws here say of each entity that a face needs which one it is,
//! and what stands at which place in it.

use vstd::prelude::*;

use crate::bounds::{edge_curve_body, flag, use_body, StepPoint};
use crate::entities::FaceGeom;
use crate::geometry::{Circle3, Ellipse3, Frame3, Line3, Point3, UnitVec3};
use crate::marks::lemma_characters;
use crate::scalar::Real;
use crate::script::{characters, decimal, digit, Glyph, Script};
use crate::step::{triple_body, StepState};
use crate::step_laws::lines_stay;

verus! {

/// A text, letter by letter.
pub open spec fn spelled(text: Seq<char>) -> Seq<Glyph> {
    Seq::new(text.len(), |i: int| Glyph::Char(text[i] as u32))
}

/// A parameter of an entity.
pub enum Arg {
    /// Another entity, by its number.
    Ref(int),
    /// A number.
    Number(Real),
    /// Yes or no.
    Flag(bool),
    /// One that is derived.
    Star,
    /// Other entities.
    Refs(Seq<usize>),
    /// Three numbers.
    Three(Real, Real, Real),
    /// A text.
    Text(Seq<char>),
    /// One that is not given.
    Unset,
}

/// A reference to an entity.
pub open spec fn reference(n: int) -> Seq<Glyph> {
    spelled("#"@) + spelled(decimal(n as nat))
}

/// References with commas between.
pub open spec fn reference_list(ids: Seq<usize>) -> Seq<Glyph>
    decreases ids.len(),
{
    if ids.len() == 0 {
        seq![]
    } else if ids.len() == 1 {
        reference(ids[0] as int)
    } else {
        (reference_list(ids.drop_last()) + spelled(","@)) + reference(ids.last() as int)
    }
}

/// How a parameter is written.
pub open spec fn written(arg: Arg) -> Seq<Glyph> {
    match arg {
        Arg::Ref(n) => reference(n),
        Arg::Number(r) => seq![Glyph::Number(r)],
        Arg::Flag(yes) => if yes {
            spelled(".T."@)
        } else {
            spelled(".F."@)
        },
        Arg::Star => spelled("*"@),
        Arg::Refs(ids) => (spelled("("@) + reference_list(ids)) + spelled(")"@),
        Arg::Three(x, y, z) => ((((spelled("("@).push(Glyph::Number(x)) + spelled(","@)).push(
            Glyph::Number(y),
        ) + spelled(","@)).push(Glyph::Number(z))) + spelled(")"@)),
        Arg::Text(text) => (spelled("'"@) + spelled(text)) + spelled("'"@),
        Arg::Unset => spelled("$"@),
    }
}

/// An entity of a type, up to its label.
pub open spec fn named(kind: Seq<char>, label: Seq<char>) -> Seq<Glyph> {
    ((spelled(kind) + spelled("('"@)) + spelled(label)) + spelled("'"@)
}

/// An entity of a type without a label, up to its first parameter.
pub open spec fn unnamed(kind: Seq<char>, arg: Arg) -> Seq<Glyph> {
    (spelled(kind) + spelled("("@)) + written(arg)
}

/// One more parameter.
pub open spec fn also(text: Seq<Glyph>, arg: Arg) -> Seq<Glyph> {
    (text + spelled(","@)) + written(arg)
}

/// And no more.
pub open spec fn done(text: Seq<Glyph>) -> Seq<Glyph> {
    text + spelled(")"@)
}

/// Whether entity `id` says something.
pub open spec fn says(lines: Seq<Script>, id: int, text: Seq<Glyph>) -> bool {
    1 <= id <= lines.len() && lines[id - 1].glyphs == text
}

/// A text is spelled.
pub proof fn lemma_spelled(x: Seq<char>)
    ensures
        characters(x) == spelled(x),
{
    lemma_characters(x);
    assert(characters(x) =~= spelled(x));
}

/// A reference after a text that leads to it.
pub proof fn lemma_ref_step(s: Script, n: nat)
    ensures
        s.text(",#"@).whole(n).glyphs == also(s.glyphs, Arg::Ref(n as int)),
{
    lemma_spelled(",#"@);
    lemma_spelled(decimal(n));
    reveal_strlit(",#");
    reveal_strlit(",");
    reveal_strlit("#");
    assert(spelled(",#"@) =~= spelled(","@) + spelled("#"@));
    assert(s.text(",#"@).whole(n).glyphs =~= also(s.glyphs, Arg::Ref(n as int)));
}

proof fn lemma_number_step(s: Script, r: Real)
    ensures
        s.text(","@).number(r).glyphs == also(s.glyphs, Arg::Number(r)),
{
    lemma_spelled(","@);
    assert(s.text(","@).number(r).glyphs =~= also(s.glyphs, Arg::Number(r)));
}

proof fn lemma_flag_step(s: Script, yes: bool)
    ensures
        s.text(","@).text(flag(yes)).glyphs == also(s.glyphs, Arg::Flag(yes)),
{
    lemma_spelled(","@);
    lemma_spelled(flag(yes));
}

/// The end of an entity.
pub proof fn lemma_done_step(s: Script)
    ensures
        s.text(")"@).glyphs == done(s.glyphs),
{
    lemma_spelled(")"@);
}

/// A type, no label and a reference.
proof fn lemma_head_ref(kind: Seq<char>, n: nat)
    ensures
        Script::empty().text(kind).text("('',#"@).whole(n).glyphs == also(
            named(kind, ""@),
            Arg::Ref(n as int),
        ),
{
    lemma_spelled(kind);
    lemma_spelled("('',#"@);
    lemma_spelled(decimal(n));
    reveal_strlit("('',#");
    reveal_strlit("('");
    reveal_strlit("");
    reveal_strlit("'");
    reveal_strlit(",");
    reveal_strlit("#");
    assert(spelled("('',#"@) =~= spelled("('"@) + spelled(""@) + spelled("'"@) + spelled(","@)
        + spelled("#"@));
    assert(Script::empty().text(kind).text("('',#"@).whole(n).glyphs =~= also(
        named(kind, ""@),
        Arg::Ref(n as int),
    ));
}

/// A type, a label and a reference.
proof fn lemma_label_ref(kind: Seq<char>, head: Seq<char>, label: Seq<char>, n: nat)
    requires
        head == kind + "('"@,
    ensures
        Script::empty().text(head).text(label).text("',#"@).whole(n).glyphs == also(
            named(kind, label),
            Arg::Ref(n as int),
        ),
{
    lemma_spelled(head);
    lemma_spelled(label);
    lemma_spelled("',#"@);
    lemma_spelled(decimal(n));
    reveal_strlit("',#");
    reveal_strlit("'");
    reveal_strlit(",");
    reveal_strlit("#");
    assert(spelled(head) =~= spelled(kind) + spelled("('"@));
    assert(spelled("',#"@) =~= spelled("'"@) + spelled(","@) + spelled("#"@));
    assert(Script::empty().text(head).text(label).text("',#"@).whole(n).glyphs =~= also(
        named(kind, label),
        Arg::Ref(n as int),
    ));
}

/// A type with what leads to a reference, and the reference.
proof fn lemma_lead_ref(kind: Seq<char>, head: Seq<char>, n: nat)
    requires
        head == kind + "('',#"@,
    ensures
        Script::empty().text(head).whole(n).glyphs == also(named(kind, ""@), Arg::Ref(n as int)),
{
    lemma_head_ref(kind, n);
    lemma_spelled(head);
    lemma_spelled(kind);
    lemma_spelled("('',#"@);
    assert(spelled(head) =~= spelled(kind) + spelled("('',#"@));
    assert(Script::empty().text(head).glyphs =~= Script::empty().text(kind).text(
        "('',#"@,
    ).glyphs);
}

/// References with commas between, as they are added to a text.
pub proof fn lemma_refs_step(s: Script, ids: Seq<usize>)
    ensures
        s.refs(ids).glyphs == s.glyphs + reference_list(ids),
    decreases ids.len(),
{
    lemma_spelled("#"@);
    if ids.len() == 0 {
        assert(s.glyphs + reference_list(ids) =~= s.glyphs);
    } else if ids.len() == 1 {
        lemma_spelled(decimal(ids[0] as nat));
        assert(s.refs(ids).glyphs =~= s.glyphs + reference_list(ids));
    } else {
        lemma_refs_step(s, ids.drop_last());
        lemma_ref_step(s.refs(ids.drop_last()), ids.last() as nat);
        assert(s.refs(ids).glyphs =~= s.glyphs + reference_list(ids));
    }
}

// ── Points, directions and what is placed by them ───────────────────────────

/// A point as it is written.
pub open spec fn point_text(p: Point3, label: Seq<char>) -> Seq<Glyph> {
    done(also(named("CARTESIAN_POINT"@, label), Arg::Three(p.x, p.y, p.z)))
}

/// A direction as it is written.
pub open spec fn direction_text(u: UnitVec3, label: Seq<char>) -> Seq<Glyph> {
    done(also(named("DIRECTION"@, label), Arg::Three(u.x, u.y, u.z)))
}

/// A placement as it is written: its origin, then its z direction, then its x
/// direction.
pub open spec fn placement_text(label: Seq<char>, origin: int, z: int, x: int) -> Seq<Glyph> {
    done(
        also(
            also(also(named("AXIS2_PLACEMENT_3D"@, label), Arg::Ref(origin)), Arg::Ref(z)),
            Arg::Ref(x),
        ),
    )
}

proof fn lemma_triple_text(
    kind: Seq<char>,
    label: Seq<char>,
    suffix: Seq<char>,
    x: Real,
    y: Real,
    z: Real,
)
    ensures
        triple_body(kind, label, suffix, x, y, z).glyphs == done(
            also(named(kind, label + suffix), Arg::Three(x, y, z)),
        ),
{
    lemma_spelled(kind);
    lemma_spelled("('"@);
    lemma_spelled(label);
    lemma_spelled(suffix);
    lemma_spelled("',("@);
    lemma_spelled(","@);
    lemma_spelled("))"@);
    reveal_strlit("',(");
    reveal_strlit("'");
    reveal_strlit(",");
    reveal_strlit("(");
    reveal_strlit("))");
    reveal_strlit(")");
    assert(spelled(label + suffix) =~= spelled(label) + spelled(suffix));
    assert(spelled("',("@) =~= spelled("'"@) + spelled(","@) + spelled("("@));
    assert(spelled("))"@) =~= spelled(")"@) + spelled(")"@));
    let front = Script::empty().text(kind).text("('"@).text(label).text(suffix).text("',("@);
    assert(front.glyphs =~= (named(kind, label + suffix) + spelled(","@)) + spelled("("@));
    let numbers = (((seq![Glyph::Number(x)] + spelled(","@)).push(Glyph::Number(y)) + spelled(
        ","@,
    )).push(Glyph::Number(z)));
    assert(front.number(x).text(","@).number(y).text(","@).number(z).glyphs =~= front.glyphs
        + numbers);
    assert(written(Arg::Three(x, y, z)) =~= (spelled("("@) + numbers) + spelled(")"@));
    assert(triple_body(kind, label, suffix, x, y, z).glyphs =~= done(
        also(named(kind, label + suffix), Arg::Three(x, y, z)),
    ));
}

/// A point says so.
pub proof fn lemma_point_text(s: StepState, p: Point3, label: Seq<char>)
    ensures
        s.point(p, label).lines.last().glyphs == point_text(p, label),
{
    lemma_triple_text("CARTESIAN_POINT"@, label, ""@, p.x, p.y, p.z);
    reveal_strlit("");
    assert(label + ""@ =~= label);
}

proof fn lemma_direction_text(s: StepState, u: UnitVec3, label: Seq<char>, suffix: Seq<char>)
    ensures
        s.direction2(u, label, suffix).lines.last().glyphs == direction_text(u, label + suffix),
{
    lemma_triple_text("DIRECTION"@, label, suffix, u.x, u.y, u.z);
}

/// A placement says so.
pub proof fn lemma_placement_text(s: StepState, label: Seq<char>, o: nat, z: nat, x: nat)
    ensures
        s.placement(label, o, z, x).lines.last().glyphs == placement_text(
            label,
            o as int,
            z as int,
            x as int,
        ),
{
    reveal_strlit("AXIS2_PLACEMENT_3D('");
    reveal_strlit("AXIS2_PLACEMENT_3D");
    reveal_strlit("('");
    assert("AXIS2_PLACEMENT_3D('"@ =~= "AXIS2_PLACEMENT_3D"@ + "('"@);
    lemma_label_ref("AXIS2_PLACEMENT_3D"@, "AXIS2_PLACEMENT_3D('"@, label, o);
    let s1 = Script::empty().text("AXIS2_PLACEMENT_3D('"@).text(label).text("',#"@).whole(o);
    lemma_ref_step(s1, z);
    let s2 = s1.text(",#"@).whole(z);
    lemma_ref_step(s2, x);
    lemma_done_step(s2.text(",#"@).whole(x));
}

/// Whether a placement stands at `id`, and right before it its origin, its z and
/// its x direction, which it refers to in that order.
pub open spec fn places(lines: Seq<Script>, id: int, frame: Frame3, label: Seq<char>) -> bool {
    &&& says(lines, id, placement_text(label, id - 3, id - 2, id - 1))
    &&& says(lines, id - 3, point_text(frame.origin, label))
    &&& says(lines, id - 2, direction_text(frame.z, label + "_Z"@))
    &&& says(lines, id - 1, direction_text(frame.x, label + "_X"@))
}

proof fn lemma_axis2_text(s: StepState, frame: Frame3, label: Seq<char>)
    requires
        s.lines.len() == s.counter,
    ensures
        ({
            let t = s.axis2(frame, label);
            &&& t.lines.len() == t.counter
            &&& t.counter == s.counter + 4
            &&& lines_stay(s, t)
            &&& places(t.lines, t.counter as int, frame, label)
        }),
{
    let s1 = s.point(frame.origin, label);
    let s2 = s1.direction2(frame.z, label, "_Z"@);
    let s3 = s2.direction2(frame.x, label, "_X"@);
    let t = s.axis2(frame, label);
    lemma_point_text(s, frame.origin, label);
    lemma_direction_text(s1, frame.z, label, "_Z"@);
    lemma_direction_text(s2, frame.x, label, "_X"@);
    lemma_placement_text(s3, label, s1.counter, s2.counter, s3.counter);
    let n = s.counter as int;
    assert(t.lines[n] == s1.lines.last());
    assert(t.lines[n + 1] == s2.lines.last());
    assert(t.lines[n + 2] == s3.lines.last());
    assert(t.lines[n + 3] == t.lines.last());
}

/// What is placed somewhere, with as many numbers as it has.
pub open spec fn placed_text(kind: Seq<char>, placement: int, numbers: Seq<Real>) -> Seq<Glyph>
    decreases numbers.len(),
{
    done(with_numbers(also(named(kind, ""@), Arg::Ref(placement)), numbers))
}

/// Numbers one after the other.
pub open spec fn with_numbers(text: Seq<Glyph>, numbers: Seq<Real>) -> Seq<Glyph>
    decreases numbers.len(),
{
    if numbers.len() == 0 {
        text
    } else {
        also(with_numbers(text, numbers.drop_last()), Arg::Number(numbers.last()))
    }
}

/// What is placed by the last entity says so.
pub proof fn lemma_placed(s: StepState, kind: Seq<char>, a: Real, b: Real)
    requires
        s.lines.len() == s.counter,
    ensures
        ({
            let n = s.counter as int;
            &&& says(s.over(kind).lines, n + 1, placed_text(kind, n, seq![]))
            &&& says(s.over1(kind, a).lines, n + 1, placed_text(kind, n, seq![a]))
            &&& says(s.over2(kind, a, b).lines, n + 1, placed_text(kind, n, seq![a, b]))
        }),
{
    let s1 = Script::empty().text(kind).text("('',#"@).whole(s.counter);
    lemma_head_ref(kind, s.counter);
    lemma_done_step(s1);
    lemma_number_step(s1, a);
    let s2 = s1.text(","@).number(a);
    lemma_done_step(s2);
    lemma_number_step(s2, b);
    let s3 = s2.text(","@).number(b);
    lemma_done_step(s3);
    let g = also(named(kind, ""@), Arg::Ref(s.counter as int));
    assert(seq![a].drop_last() =~= Seq::<Real>::empty());
    assert(seq![a, b].drop_last() =~= seq![a]);
    assert(with_numbers(g, seq![a]) == also(with_numbers(g, seq![]), Arg::Number(a)));
    assert(with_numbers(g, seq![a, b]) == also(with_numbers(g, seq![a]), Arg::Number(b)));
}

/// Whether entity `id` is a surface: the entity of its kind over a placement,
/// with the lengths that it has. A torus has its major radius first and then its
/// minor one.
pub open spec fn is_surface(lines: Seq<Script>, id: int, geom: FaceGeom) -> bool {
    match geom {
        FaceGeom::Plane(p) => {
            &&& says(lines, id, placed_text("PLANE"@, id - 1, seq![]))
            &&& places(lines, id - 1, p.frame, "plane"@)
        },
        FaceGeom::Cylinder(c) => {
            &&& says(lines, id, placed_text("CYLINDRICAL_SURFACE"@, id - 1, seq![c.radius]))
            &&& places(lines, id - 1, c.frame, "cyl_axis"@)
        },
        FaceGeom::Sphere(b) => {
            &&& says(lines, id, placed_text("SPHERICAL_SURFACE"@, id - 1, seq![b.radius]))
            &&& places(lines, id - 1, b.frame, "sph_axis"@)
        },
        FaceGeom::Torus(t) => {
            &&& says(
                lines,
                id,
                placed_text("TOROIDAL_SURFACE"@, id - 1, seq![t.major_radius, t.minor_radius]),
            )
            &&& places(lines, id - 1, t.frame, "torus_axis"@)
        },
    }
}

/// Whoever reads the surface of a face finds the face's surface: its kind, where
/// it is, which way it is turned, and its radii, each at its place. What was
/// written before stays.
pub proof fn law_surfaces_read_back(s: StepState, geom: FaceGeom)
    requires
        s.lines.len() == s.counter,
    ensures
        ({
            let t = s.surface(geom);
            &&& t.lines.len() == t.counter
            &&& t.counter == s.counter + 5
            &&& lines_stay(s, t)
            &&& is_surface(t.lines, t.counter as int, geom)
        }),
{
    let zero = Real { bits: 0 };
    match geom {
        FaceGeom::Plane(p) => {
            lemma_axis2_text(s, p.frame, "plane"@);
            lemma_placed(s.axis2(p.frame, "plane"@), "PLANE"@, zero, zero);
        },
        FaceGeom::Cylinder(c) => {
            lemma_axis2_text(s, c.frame, "cyl_axis"@);
            lemma_placed(s.axis2(c.frame, "cyl_axis"@), "CYLINDRICAL_SURFACE"@, c.radius, zero);
        },
        FaceGeom::Sphere(b) => {
            lemma_axis2_text(s, b.frame, "sph_axis"@);
            lemma_placed(s.axis2(b.frame, "sph_axis"@), "SPHERICAL_SURFACE"@, b.radius, zero);
        },
        FaceGeom::Torus(r) => {
            lemma_axis2_text(s, r.frame, "torus_axis"@);
            lemma_placed(
                s.axis2(r.frame, "torus_axis"@),
                "TOROIDAL_SURFACE"@,
                r.major_radius,
                r.minor_radius,
            );
        },
    }
}

// ── Curves ──────────────────────────────────────────────────────────────────

/// A line as it is written: a point on it, then its direction or a vector.
pub open spec fn line_text(point: int, along: int) -> Seq<Glyph> {
    done(also(also(named("LINE"@, ""@), Arg::Ref(point)), Arg::Ref(along)))
}

/// A vector as it is written: its direction, then its length.
pub open spec fn vector_text(label: Seq<char>, dir: int, length: Real) -> Seq<Glyph> {
    done(also(also(named("VECTOR"@, label), Arg::Ref(dir)), Arg::Number(length)))
}

/// The body of a line says so.
pub proof fn lemma_line_text(point: nat, along: nat)
    ensures
        Script::empty().text("LINE('',#"@).whole(point).text(",#"@).whole(along).text(
            ")"@,
        ).glyphs == line_text(point as int, along as int),
{
    reveal_strlit("LINE('',#");
    reveal_strlit("LINE");
    reveal_strlit("('',#");
    assert("LINE('',#"@ =~= "LINE"@ + "('',#"@);
    lemma_lead_ref("LINE"@, "LINE('',#"@, point);
    let s1 = Script::empty().text("LINE('',#"@).whole(point);
    lemma_ref_step(s1, along);
    lemma_done_step(s1.text(",#"@).whole(along));
}

/// A line reads back as one through its origin along its direction, in steps of
/// one.
pub proof fn law_lines_read_back(s: StepState, line: Line3)
    requires
        s.lines.len() == s.counter,
    ensures
        ({
            let t = s.line(line);
            let n = t.counter as int;
            &&& lines_stay(s, t)
            &&& n == s.counter + 4
            &&& says(t.lines, n, line_text(n - 3, n - 1))
            &&& says(t.lines, n - 3, point_text(line.origin, "line_pt"@))
            &&& says(t.lines, n - 2, direction_text(line.direction, "line_dir"@))
            &&& says(
                t.lines,
                n - 1,
                vector_text("line_vec"@, n - 2, Real { bits: 0x3ff0000000000000 }),
            )
        }),
{
    let one = Real { bits: 0x3ff0000000000000 };
    let s1 = s.point(line.origin, "line_pt"@);
    let s2 = s1.direction(line.direction, "line_dir"@);
    let s3 = s2.vector(s2.counter, one, "line_vec"@);
    let t = s.line(line);
    lemma_point_text(s, line.origin, "line_pt"@);
    lemma_plain_direction_text(s1, line.direction, "line_dir"@);
    reveal_strlit("VECTOR('");
    reveal_strlit("VECTOR");
    reveal_strlit("('");
    assert("VECTOR('"@ =~= "VECTOR"@ + "('"@);
    lemma_label_ref("VECTOR"@, "VECTOR('"@, "line_vec"@, s2.counter);
    let v1 = Script::empty().text("VECTOR('"@).text("line_vec"@).text("',#"@).whole(s2.counter);
    lemma_number_step(v1, one);
    lemma_done_step(v1.text(","@).number(one));
    lemma_line_text(s1.counter, s3.counter);
    let n = s.counter as int;
    assert(t.lines[n] == s1.lines.last());
    assert(t.lines[n + 1] == s2.lines.last());
    assert(t.lines[n + 2] == s3.lines.last());
    assert(t.lines[n + 3] == t.lines.last());
}

/// A direction with a label in one part.
pub proof fn lemma_plain_direction_text(s: StepState, u: UnitVec3, label: Seq<char>)
    ensures
        s.direction(u, label).lines.last().glyphs == direction_text(u, label),
{
    lemma_direction_text(s, u, label, ""@);
    reveal_strlit("");
    assert(label + ""@ =~= label);
}

/// A circle reads back with its radius, an ellipse with its larger half axis
/// first and then its smaller one, each over its placement.
pub proof fn law_conics_read_back(s: StepState, circle: Circle3, ellipse: Ellipse3)
    requires
        s.lines.len() == s.counter,
    ensures
        ({
            let t = s.circle(circle);
            let n = t.counter as int;
            &&& lines_stay(s, t)
            &&& n == s.counter + 5
            &&& says(t.lines, n, placed_text("CIRCLE"@, n - 1, seq![circle.radius]))
            &&& places(t.lines, n - 1, circle.frame, "circ_ax"@)
        }),
        ({
            let t = s.ellipse(ellipse);
            let n = t.counter as int;
            &&& lines_stay(s, t)
            &&& n == s.counter + 5
            &&& says(
                t.lines,
                n,
                placed_text("ELLIPSE"@, n - 1, seq![ellipse.semi_major, ellipse.semi_minor]),
            )
            &&& places(t.lines, n - 1, ellipse.frame, "ellipse_ax"@)
        }),
{
    let zero = Real { bits: 0 };
    lemma_axis2_text(s, circle.frame, "circ_ax"@);
    lemma_placed(s.axis2(circle.frame, "circ_ax"@), "CIRCLE"@, circle.radius, zero);
    lemma_axis2_text(s, ellipse.frame, "ellipse_ax"@);
    lemma_placed(
        s.axis2(ellipse.frame, "ellipse_ax"@),
        "ELLIPSE"@,
        ellipse.semi_major,
        ellipse.semi_minor,
    );
}

/// Whether a circle stands at `id`, over the placement before it, which is by its
/// centre, its normal and a direction across.
pub open spec fn is_circle(
    lines: Seq<Script>,
    id: int,
    centre: Point3,
    normal: UnitVec3,
    across: UnitVec3,
    radius: Real,
    labels: (Seq<char>, Seq<char>, Seq<char>),
) -> bool {
    &&& says(lines, id, placed_text("CIRCLE"@, id - 1, seq![radius]))
    &&& says(lines, id - 1, placement_text(""@, id - 4, id - 3, id - 2))
    &&& says(lines, id - 4, point_text(centre, labels.0))
    &&& says(lines, id - 3, direction_text(normal, labels.1))
    &&& says(lines, id - 2, direction_text(across, labels.2))
}

/// A circle by its centre, its normal and a direction across.
pub proof fn lemma_circle_text(
    s: StepState,
    centre: Point3,
    normal: UnitVec3,
    across: UnitVec3,
    radius: Real,
    labels: (Seq<char>, Seq<char>, Seq<char>),
)
    requires
        s.lines.len() == s.counter,
    ensures
        ({
            let s1 = s.point(centre, labels.0);
            let s2 = s1.direction(normal, labels.1);
            let s3 = s2.direction(across, labels.2);
            let t = s3.placement(""@, s1.counter, s2.counter, s3.counter).over1("CIRCLE"@, radius);
            &&& lines_stay(s, t)
            &&& t.counter == s.counter + 5
            &&& is_circle(t.lines, t.counter as int, centre, normal, across, radius, labels)
        }),
{
    let s1 = s.point(centre, labels.0);
    let s2 = s1.direction(normal, labels.1);
    let s3 = s2.direction(across, labels.2);
    let s4 = s3.placement(""@, s1.counter, s2.counter, s3.counter);
    let t = s4.over1("CIRCLE"@, radius);
    lemma_point_text(s, centre, labels.0);
    lemma_plain_direction_text(s1, normal, labels.1);
    lemma_plain_direction_text(s2, across, labels.2);
    lemma_placement_text(s3, ""@, s1.counter, s2.counter, s3.counter);
    lemma_placed(s4, "CIRCLE"@, radius, radius);
    let n = s.counter as int;
    assert(t.lines[n] == s1.lines.last());
    assert(t.lines[n + 1] == s2.lines.last());
    assert(t.lines[n + 2] == s3.lines.last());
    assert(t.lines[n + 3] == s4.lines.last());
}

// ── Vertices, edges and bounds ──────────────────────────────────────────────

/// An edge curve as it is written: where it starts, where it ends, the curve that
/// it is part of, and whether it runs along it.
pub open spec fn edge_text(from: int, to: int, curve: int, same: bool) -> Seq<Glyph> {
    done(
        also(
            also(also(also(named("EDGE_CURVE"@, ""@), Arg::Ref(from)), Arg::Ref(to)), Arg::Ref(curve)),
            Arg::Flag(same),
        ),
    )
}

/// A use of an edge curve as it is written; where it starts and ends is derived.
pub open spec fn use_text(curve: int, same: bool) -> Seq<Glyph> {
    done(
        also(
            also(also(also(named("ORIENTED_EDGE"@, ""@), Arg::Star), Arg::Star), Arg::Ref(curve)),
            Arg::Flag(same),
        ),
    )
}

/// A loop of uses as it is written.
pub open spec fn loop_text(uses: Seq<usize>) -> Seq<Glyph> {
    done(also(named("EDGE_LOOP"@, ""@), Arg::Refs(uses)))
}

/// A bound as it is written: its loop, which is never turned round.
pub open spec fn bound_text(outer: bool, edges: int) -> Seq<Glyph> {
    done(
        also(
            also(
                named(
                    if outer {
                        "FACE_OUTER_BOUND"@
                    } else {
                        "FACE_BOUND"@
                    },
                    ""@,
                ),
                Arg::Ref(edges),
            ),
            Arg::Flag(true),
        ),
    )
}

/// A face as it is written: its bounds, its surface, and whether it looks the way
/// that its surface does.
pub open spec fn face_text(bounds: Seq<usize>, surface: usize, same: bool) -> Seq<Glyph> {
    done(
        also(
            also(also(named("ADVANCED_FACE"@, ""@), Arg::Refs(bounds)), Arg::Refs(seq![surface])),
            Arg::Flag(same),
        ),
    )
}

/// The body of an edge curve says so.
pub proof fn lemma_edge_text(from: nat, to: nat, curve: nat, same: bool)
    ensures
        edge_curve_body(from, to, curve, same).glyphs == edge_text(
            from as int,
            to as int,
            curve as int,
            same,
        ),
{
    reveal_strlit("EDGE_CURVE('',#");
    reveal_strlit("EDGE_CURVE");
    reveal_strlit("('',#");
    assert("EDGE_CURVE('',#"@ =~= "EDGE_CURVE"@ + "('',#"@);
    lemma_lead_ref("EDGE_CURVE"@, "EDGE_CURVE('',#"@, from);
    let s1 = Script::empty().text("EDGE_CURVE('',#"@).whole(from);
    lemma_ref_step(s1, to);
    let s2 = s1.text(",#"@).whole(to);
    lemma_ref_step(s2, curve);
    let s3 = s2.text(",#"@).whole(curve);
    lemma_flag_step(s3, same);
    lemma_done_step(s3.text(","@).text(flag(same)));
}

/// The body of a use says so.
pub proof fn lemma_use_text(curve: nat, same: bool)
    ensures
        use_body(curve, same).glyphs == use_text(curve as int, same),
{
    let s1 = Script::empty().text("ORIENTED_EDGE('',*,*,#"@).whole(curve);
    let front = also(also(named("ORIENTED_EDGE"@, ""@), Arg::Star), Arg::Star);
    reveal_strlit("ORIENTED_EDGE('',*,*,#");
    reveal_strlit("ORIENTED_EDGE");
    reveal_strlit("('");
    reveal_strlit("");
    reveal_strlit("'");
    reveal_strlit(",");
    reveal_strlit("*");
    reveal_strlit("#");
    lemma_spelled("ORIENTED_EDGE('',*,*,#"@);
    lemma_spelled(decimal(curve));
    assert(spelled("ORIENTED_EDGE('',*,*,#"@) =~= (front + spelled(","@)) + spelled("#"@));
    assert(s1.glyphs =~= also(front, Arg::Ref(curve as int)));
    lemma_flag_step(s1, same);
    lemma_done_step(s1.text(","@).text(flag(same)));
}

/// The body of a loop says so.
pub proof fn lemma_loop_text(uses: Seq<usize>)
    ensures
        Script::empty().text("EDGE_LOOP('',("@).refs(uses).text("))"@).glyphs == loop_text(uses),
{
    let s1 = Script::empty().text("EDGE_LOOP('',("@);
    lemma_refs_step(s1, uses);
    reveal_strlit("EDGE_LOOP('',(");
    reveal_strlit("EDGE_LOOP");
    reveal_strlit("('");
    reveal_strlit("");
    reveal_strlit("'");
    reveal_strlit(",");
    reveal_strlit("(");
    reveal_strlit(")");
    reveal_strlit("))");
    lemma_spelled("EDGE_LOOP('',("@);
    lemma_spelled("))"@);
    assert(s1.glyphs =~= (named("EDGE_LOOP"@, ""@) + spelled(","@)) + spelled("("@));
    assert(spelled("))"@) =~= spelled(")"@) + spelled(")"@));
    assert(s1.refs(uses).text("))"@).glyphs =~= loop_text(uses));
}

/// The body of a loop of one use says so.
pub proof fn lemma_single_loop_text(n: usize)
    ensures
        Script::empty().text("EDGE_LOOP('',(#"@).whole(n as nat).text("))"@).glyphs == loop_text(
            seq![n],
        ),
{
    lemma_loop_text(seq![n]);
    reveal_strlit("EDGE_LOOP('',(#");
    reveal_strlit("EDGE_LOOP('',(");
    reveal_strlit("#");
    lemma_spelled("EDGE_LOOP('',(#"@);
    lemma_spelled("EDGE_LOOP('',("@);
    lemma_spelled("#"@);
    assert(Script::empty().text("EDGE_LOOP('',(#"@).glyphs =~= Script::empty().text(
        "EDGE_LOOP('',("@,
    ).text("#"@).glyphs);
}

/// The body of a bound says so.
pub proof fn lemma_bound_text(outer: bool, n: nat)
    ensures
        Script::empty().text(
            if outer {
                "FACE_OUTER_BOUND"@
            } else {
                "FACE_BOUND"@
            },
        ).text("('',#"@).whole(n).text(",.T.)"@).glyphs == bound_text(outer, n as int),
        Script::empty().text("FACE_OUTER_BOUND('',#"@).whole(n).text(",.T.)"@).glyphs == bound_text(
            true,
            n as int,
        ),
{
    let kind = if outer {
        "FACE_OUTER_BOUND"@
    } else {
        "FACE_BOUND"@
    };
    lemma_head_ref(kind, n);
    reveal_strlit("FACE_OUTER_BOUND('',#");
    reveal_strlit("FACE_OUTER_BOUND");
    reveal_strlit("('',#");
    assert("FACE_OUTER_BOUND('',#"@ =~= "FACE_OUTER_BOUND"@ + "('',#"@);
    lemma_lead_ref("FACE_OUTER_BOUND"@, "FACE_OUTER_BOUND('',#"@, n);
    reveal_strlit(",.T.)");
    reveal_strlit(",");
    reveal_strlit(".T.");
    reveal_strlit(")");
    lemma_spelled(",.T.)"@);
    assert(spelled(",.T.)"@) =~= (spelled(","@) + spelled(".T."@)) + spelled(")"@));
    let s1 = Script::empty().text(kind).text("('',#"@).whole(n);
    assert(s1.text(",.T.)"@).glyphs =~= done(also(s1.glyphs, Arg::Flag(true))));
    let s2 = Script::empty().text("FACE_OUTER_BOUND('',#"@).whole(n);
    assert(s2.text(",.T.)"@).glyphs =~= done(also(s2.glyphs, Arg::Flag(true))));
}

/// The body of a face says so.
pub proof fn lemma_face_text(bounds: Seq<usize>, surface: usize, same: bool)
    ensures
        Script::empty().text("ADVANCED_FACE('',("@).refs(bounds).text("),(#"@).whole(
            surface as nat,
        ).text("),"@).text(flag(same)).text(")"@).glyphs == face_text(bounds, surface, same),
{
    let s1 = Script::empty().text("ADVANCED_FACE('',("@);
    let s2 = s1.refs(bounds);
    let s3 = s2.text("),(#"@).whole(surface as nat);
    let s4 = s3.text("),"@).text(flag(same));
    lemma_refs_step(s1, bounds);
    lemma_spelled("ADVANCED_FACE('',("@);
    lemma_spelled("),(#"@);
    lemma_spelled(decimal(surface as nat));
    lemma_spelled("),"@);
    lemma_spelled(flag(same));
    reveal_strlit("ADVANCED_FACE('',(");
    reveal_strlit("ADVANCED_FACE");
    reveal_strlit("('");
    reveal_strlit("");
    reveal_strlit("'");
    reveal_strlit(",");
    reveal_strlit("(");
    reveal_strlit(")");
    reveal_strlit("#");
    reveal_strlit("),(#");
    reveal_strlit("),");
    assert(s1.glyphs =~= (named("ADVANCED_FACE"@, ""@) + spelled(","@)) + spelled("("@));
    assert(spelled("),(#"@) =~= ((spelled(")"@) + spelled(","@)) + spelled("("@)) + spelled("#"@));
    assert(spelled("),"@) =~= spelled(")"@) + spelled(","@));
    let front = also(named("ADVANCED_FACE"@, ""@), Arg::Refs(bounds));
    assert(s2.glyphs + spelled(")"@) =~= front);
    assert(reference_list(seq![surface]) == reference(surface as int));
    assert(s3.glyphs + spelled(")"@) =~= also(front, Arg::Refs(seq![surface])));
    assert(s4.glyphs =~= also(also(front, Arg::Refs(seq![surface])), Arg::Flag(same)));
    lemma_done_step(s4);
}

// ── Whole numbers ───────────────────────────────────────────────────────────

/// What a digit is worth.
pub open spec fn worth(c: char) -> int {
    c as int - '0' as int
}

/// What digits are worth, the last as it is and each one before ten times as much
/// as the one after it.
pub open spec fn value_of(digits: Seq<char>) -> int
    decreases digits.len(),
{
    if digits.len() == 0 {
        0
    } else {
        10 * value_of(digits.drop_last()) + worth(digits.last())
    }
}

/// A number of an entity reads back: it is made of digits, does not start with a
/// zero unless it is one, and is worth what it was.
pub proof fn law_whole_numbers_read_back(n: nat)
    ensures
        value_of(decimal(n)) == n,
        decimal(n).len() > 0,
        forall|i: int| 0 <= i < decimal(n).len() ==> 0 <= worth(#[trigger] decimal(n)[i]) < 10,
        n > 0 ==> decimal(n)[0] != '0',
    decreases n,
{
    if n < 10 {
        assert(decimal(n).drop_last() =~= Seq::<char>::empty());
        assert(value_of(decimal(n).drop_last()) == 0);
        assert(value_of(decimal(n)) == worth(digit(n as int)));
    } else {
        law_whole_numbers_read_back(n / 10);
        assert(decimal(n).drop_last() =~= decimal(n / 10));
        assert(worth(digit((n % 10) as int)) == n % 10);
    }
}

} // verus!
