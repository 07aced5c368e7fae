//! Emission of STEP entities, each as a line `#N = TYPE(...);`.

use vstd::prelude::*;

use crate::cache::{CacheKey, Table, mix, mixed};
use crate::geometry::{
    Circle3, CylSurf, Ellipse3, Frame3, Line3, Plane3, Point3, SphereSurf, TorusSurf, UnitVec3,
};
use crate::scalar::Real;
use crate::script::{Glyph, Line, Script};

verus! {

/// One.
pub const ONE: u64 = 0x3ff0000000000000;

/// Why a text could not be written. Writing into memory does not fail; the type
/// is there for those who write elsewhere.
#[derive(Clone, Copy, Debug, PartialEq, Eq, Structural)]
pub enum StepError {
    /// The text could not be written.
    Fmt,
}

/// A point or a direction on a grid.
#[derive(Clone, Copy, Debug, PartialEq, Eq, Structural)]
pub struct GridKey {
    pub x: i64,
    pub y: i64,
    pub z: i64,
}

impl CacheKey for GridKey {
    open spec fn code(self) -> u64 {
        mixed(mixed(self.x as u64, self.y as u64), self.z as u64)
    }

    #[verifier::truncate]
    fn digest(&self) -> (code: u64) {
        mix(mix(self.x as u64, self.y as u64), self.z as u64)
    }

    fn same(&self, other: &Self) -> (same: bool) {
        *self == *other
    }
}

/// By what an edge curve is found again: the same curve has the same key from
/// either side.
#[derive(Clone, Copy, Debug, PartialEq, Eq, Structural)]
pub enum StepCurveKey {
    /// A segment between two vertices, the smaller id first.
    Line { v1: usize, v2: usize },
    /// A full circle.
    Circle { center: GridKey, radius_micro: i64, normal: GridKey },
    /// A full ellipse.
    Ellipse {
        center: GridKey,
        semi_major_micro: i64,
        semi_minor_micro: i64,
        normal: GridKey,
    },
    /// An arc between two points, the smaller first.
    Arc {
        low: GridKey,
        high: GridKey,
        center: GridKey,
        radius_micro: i64,
        axis: GridKey,
        xref: GridKey,
    },
}

impl CacheKey for StepCurveKey {
    open spec fn code(self) -> u64 {
        match self {
            StepCurveKey::Line { v1, v2 } => mixed(v1 as u64, v2 as u64),
            StepCurveKey::Circle { center, radius_micro, normal } => mixed(
                mixed(center.code(), normal.code()),
                radius_micro as u64,
            ),
            StepCurveKey::Ellipse { center, semi_major_micro, semi_minor_micro, normal } => mixed(
                mixed(center.code(), normal.code()),
                mixed(semi_major_micro as u64, semi_minor_micro as u64),
            ),
            StepCurveKey::Arc { low, high, center, radius_micro, axis, xref } => mixed(
                mixed(low.code(), high.code()),
                center.code(),
            ),
        }
    }

    #[verifier::truncate]
    fn digest(&self) -> (code: u64) {
        match self {
            StepCurveKey::Line { v1, v2 } => mix(*v1 as u64, *v2 as u64),
            StepCurveKey::Circle { center, radius_micro, normal } => mix(
                mix(center.digest(), normal.digest()),
                *radius_micro as u64,
            ),
            StepCurveKey::Ellipse { center, semi_major_micro, semi_minor_micro, normal } => mix(
                mix(center.digest(), normal.digest()),
                mix(*semi_major_micro as u64, *semi_minor_micro as u64),
            ),
            StepCurveKey::Arc { low, high, center, radius_micro, axis, xref } => mix(
                mix(low.digest(), high.digest()),
                center.digest(),
            ),
        }
    }

    fn same(&self, other: &Self) -> (same: bool) {
        *self == *other
    }
}

/// How a bound runs along an edge curve.
pub enum Way {
    /// All the way round a closed curve.
    Round,
    /// From one end of the curve, at a vertex, to the other.
    From(usize),
}

/// A use of an edge curve: which, how it is run along, and whether in the
/// direction of the curve.
pub struct StepUse {
    pub curve: usize,
    pub way: Way,
    pub same: bool,
}

/// The entities so far: how many there are, what they say, which vertex stands
/// at a point, and which edge curve a key has, with where it starts (or, for a
/// closed curve, which way it was first used). What they say is there as text
/// and as what each entity says, with the numbers of those that an empty line
/// comes after; the uses of edge curves among them are listed.
#[verifier::ext_equal]
pub struct StepState {
    pub counter: nat,
    pub out: Seq<Glyph>,
    pub vertices: Map<GridKey, usize>,
    pub edges: Map<StepCurveKey, (usize, usize)>,
    pub lines: Seq<Script>,
    pub gaps: Set<nat>,
    pub uses: Seq<StepUse>,
}

/// The line of an entity.
pub open spec fn entity_line(id: nat, body: Script) -> Seq<Glyph> {
    (Script::empty().text("#"@).whole(id).text(" = "@).glyphs + body.glyphs) + Script::empty().text(
        ";\n"@,
    ).glyphs
}

/// `CARTESIAN_POINT` or `DIRECTION`: a type, a label in two parts and three
/// numbers.
pub open spec fn triple_body(
    kind: Seq<char>,
    label: Seq<char>,
    suffix: Seq<char>,
    x: Real,
    y: Real,
    z: Real,
) -> Script {
    Script::empty().text(kind).text("('"@).text(label).text(suffix).text("',("@).number(x).text(","@).number(
        y,
    ).text(","@).number(z).text("))"@)
}

impl StepState {
    /// One more entity; its id is the new count.
    pub open spec fn put(self, body: Script) -> StepState {
        StepState {
            counter: self.counter + 1,
            out: self.out + entity_line(self.counter + 1, body),
            lines: self.lines.push(body),
            ..self
        }
    }

    /// A point.
    pub open spec fn point(self, p: Point3, label: Seq<char>) -> StepState {
        self.put(triple_body("CARTESIAN_POINT"@, label, ""@, p.x, p.y, p.z))
    }

    /// A direction whose label is in two parts.
    pub open spec fn direction2(
        self,
        u: UnitVec3,
        label: Seq<char>,
        suffix: Seq<char>,
    ) -> StepState {
        self.put(triple_body("DIRECTION"@, label, suffix, u.x, u.y, u.z))
    }

    /// A direction.
    pub open spec fn direction(self, u: UnitVec3, label: Seq<char>) -> StepState {
        self.direction2(u, label, ""@)
    }

    /// A vector along a direction.
    pub open spec fn vector(self, dir: nat, magnitude: Real, label: Seq<char>) -> StepState {
        self.put(
            Script::empty().text("VECTOR('"@).text(label).text("',#"@).whole(dir).text(","@).number(
                magnitude,
            ).text(")"@),
        )
    }

    /// A placement from a point and two directions.
    pub open spec fn placement(
        self,
        label: Seq<char>,
        origin: nat,
        z: nat,
        x: nat,
    ) -> StepState {
        self.put(
            Script::empty().text("AXIS2_PLACEMENT_3D('"@).text(label).text("',#"@).whole(
                origin,
            ).text(",#"@).whole(z).text(",#"@).whole(x).text(")"@),
        )
    }

    /// A frame: its origin, its z, its x, and the placement of these.
    pub open spec fn axis2(self, frame: Frame3, label: Seq<char>) -> StepState {
        let s1 = self.point(frame.origin, label);
        let s2 = s1.direction2(frame.z, label, "_Z"@);
        let s3 = s2.direction2(frame.x, label, "_X"@);
        s3.placement(label, s1.counter, s2.counter, s3.counter)
    }

    /// A type over the last entity.
    pub open spec fn over(self, kind: Seq<char>) -> StepState {
        self.put(Script::empty().text(kind).text("('',#"@).whole(self.counter).text(")"@))
    }

    /// A type over the last entity, with a number.
    pub open spec fn over1(self, kind: Seq<char>, a: Real) -> StepState {
        self.put(
            Script::empty().text(kind).text("('',#"@).whole(self.counter).text(","@).number(
                a,
            ).text(")"@),
        )
    }

    /// A type over the last entity, with two numbers.
    pub open spec fn over2(self, kind: Seq<char>, a: Real, b: Real) -> StepState {
        self.put(
            Script::empty().text(kind).text("('',#"@).whole(self.counter).text(","@).number(
                a,
            ).text(","@).number(b).text(")"@),
        )
    }

    /// A plane.
    pub open spec fn plane(self, plane: Plane3) -> StepState {
        self.axis2(plane.frame, "plane"@).over("PLANE"@)
    }

    /// A cylinder.
    pub open spec fn cylinder(self, cyl: CylSurf) -> StepState {
        self.axis2(cyl.frame, "cyl_axis"@).over1("CYLINDRICAL_SURFACE"@, cyl.radius)
    }

    /// A sphere.
    pub open spec fn sphere(self, sph: SphereSurf) -> StepState {
        self.axis2(sph.frame, "sph_axis"@).over1("SPHERICAL_SURFACE"@, sph.radius)
    }

    /// A torus.
    pub open spec fn torus(self, torus: TorusSurf) -> StepState {
        self.axis2(torus.frame, "torus_axis"@).over2(
            "TOROIDAL_SURFACE"@,
            torus.major_radius,
            torus.minor_radius,
        )
    }

    /// A line.
    pub open spec fn line(self, line: Line3) -> StepState {
        let s1 = self.point(line.origin, "line_pt"@);
        let s2 = s1.direction(line.direction, "line_dir"@);
        let s3 = s2.vector(s2.counter, Real { bits: ONE }, "line_vec"@);
        s3.put(
            Script::empty().text("LINE('',#"@).whole(s1.counter).text(",#"@).whole(
                s3.counter,
            ).text(")"@),
        )
    }

    /// A circle.
    pub open spec fn circle(self, circle: Circle3) -> StepState {
        self.axis2(circle.frame, "circ_ax"@).over1("CIRCLE"@, circle.radius)
    }

    /// An ellipse.
    pub open spec fn ellipse(self, ellipse: Ellipse3) -> StepState {
        self.axis2(ellipse.frame, "ellipse_ax"@).over2(
            "ELLIPSE"@,
            ellipse.semi_major,
            ellipse.semi_minor,
        )
    }
}

/// The entities under construction.
pub struct Ctx {
    /// How many ids have been given out.
    pub counter: usize,
    /// The lines so far.
    pub out: Vec<Glyph>,
    /// The vertex at a point.
    pub vertex_cache: Table<GridKey, usize>,
    /// The edge curve of a key, and where it starts or how it was first used.
    pub edge_cache: Table<StepCurveKey, (usize, usize)>,
    /// What each entity says.
    pub lines: Ghost<Seq<Script>>,
    /// After which entities there is an empty line.
    pub gaps: Ghost<Set<nat>>,
    /// The uses of edge curves.
    pub uses: Ghost<Seq<StepUse>>,
}

impl Ctx {
    /// The entities so far.
    pub open spec fn view(&self) -> StepState {
        StepState {
            counter: self.counter as nat,
            out: self.out@,
            vertices: self.vertex_cache@,
            edges: self.edge_cache@,
            lines: self.lines@,
            gaps: self.gaps@,
            uses: self.uses@,
        }
    }

    /// Each id has a line of some length, so ids do not run out.
    pub open spec fn wf(&self) -> bool {
        4 * self.counter <= self.out@.len()
    }

    /// No entities.
    pub fn new() -> (ctx: Ctx)
        ensures
            ctx.wf(),
            ctx@ == (StepState {
                counter: 0,
                out: seq![],
                vertices: Map::empty(),
                edges: Map::empty(),
                lines: seq![],
                gaps: Set::empty(),
                uses: seq![],
            }),
    {
        Ctx {
            counter: 0,
            out: Vec::new(),
            vertex_cache: Table::new(),
            edge_cache: Table::new(),
            lines: Ghost(Seq::empty()),
            gaps: Ghost(Set::empty()),
            uses: Ghost(Seq::empty()),
        }
    }

    /// Allocate the next entity id (1-based) and return it.
    pub fn next_id(&mut self) -> (id: usize)
        requires
            old(self).counter < usize::MAX,
        ensures
            id == old(self).counter + 1,
            final(self)@ == (StepState { counter: id as nat, ..old(self)@ }),
    {
        self.counter = self.counter + 1;
        self.counter
    }

    /// Write the line of an entity.
    pub fn emit_raw(&mut self, id: usize, line: &Line) -> (result: Result<(), StepError>)
        ensures
            result is Ok,
            final(self)@ == (StepState {
                out: old(self)@.out + entity_line(id as nat, line@),
                lines: old(self)@.lines.push(line@),
                ..old(self)@
            }),
    {
        let ghost before = self.out@;
        let head = Line::new().text("#").whole(id).text(" = ");
        let tail = Line::new().text(";\n");
        append(&mut self.out, &head.glyphs);
        append(&mut self.out, &line.glyphs);
        append(&mut self.out, &tail.glyphs);
        assert(self.out@ =~= before + entity_line(id as nat, line@));
        proof {
            self.lines@ = self.lines@.push(line@);
        }
        Ok(())
    }

    /// Allocate an id, write its line, and return it.
    pub fn put(&mut self, line: &Line) -> (id: usize)
        requires
            old(self).wf(),
        ensures
            final(self).wf(),
            final(self)@ == old(self)@.put(line@),
            id == final(self).counter,
    {
        let n: usize = self.out.len();
        let id: usize = self.next_id();
        let done = self.emit_raw(id, line);
        proof {
            lemma_line_length(id as nat, line@);
        }
        id
    }
}

/// Append glyphs.
pub fn append(out: &mut Vec<Glyph>, more: &Vec<Glyph>)
    ensures
        final(out)@ == old(out)@ + more@,
{
    let ghost before = out@;
    let mut i: usize = 0;
    assert(before + more@.take(0) =~= before);
    while i < more.len()
        invariant
            i <= more@.len(),
            out@ == before + more@.take(i as int),
        decreases more@.len() - i,
    {
        out.push(more[i]);
        assert(out@ =~= before + more@.take(i + 1));
        i = i + 1;
    }
    assert(more@.take(i as int) =~= more@);
}

/// Characters take their own number of places.
pub proof fn lemma_characters_len(text: Seq<char>)
    ensures
        crate::script::characters(text).len() == text.len(),
    decreases text.len(),
{
    if text.len() > 0 {
        lemma_characters_len(text.drop_last());
    }
}

proof fn lemma_line_length(id: nat, body: Script)
    ensures
        entity_line(id, body).len() >= 4,
{
    reveal_strlit("#");
    reveal_strlit(" = ");
    reveal_strlit(";\n");
    lemma_characters_len("#"@);
    lemma_characters_len(" = "@);
    lemma_characters_len(";\n"@);
}

/// A type, a label in two parts and three numbers.
fn triple_line(kind: &str, label: &str, suffix: &str, x: Real, y: Real, z: Real) -> (line: Line)
    ensures
        line@ == triple_body(kind@, label@, suffix@, x, y, z),
{
    Line::new().text(kind).text("('").text(label).text(suffix).text("',(").number(x).text(
        ",",
    ).number(y).text(",").number(z).text("))")
}

/// A point.
pub fn emit_point(ctx: &mut Ctx, p: Point3, label: &str) -> (id: usize)
    requires
        old(ctx).wf(),
    ensures
        final(ctx).wf(),
        final(ctx)@ == old(ctx)@.point(p, label@),
        id == final(ctx).counter,
{
    ctx.put(&triple_line("CARTESIAN_POINT", label, "", p.x, p.y, p.z))
}

/// A direction whose label is in two parts.
pub fn emit_direction(ctx: &mut Ctx, u: UnitVec3, label: &str, suffix: &str) -> (id: usize)
    requires
        old(ctx).wf(),
    ensures
        final(ctx).wf(),
        final(ctx)@ == old(ctx)@.direction2(u, label@, suffix@),
        id == final(ctx).counter,
{
    ctx.put(&triple_line("DIRECTION", label, suffix, u.x, u.y, u.z))
}

/// A direction.
pub fn emit_unit_direction(ctx: &mut Ctx, u: UnitVec3, label: &str) -> (id: usize)
    requires
        old(ctx).wf(),
    ensures
        final(ctx).wf(),
        final(ctx)@ == old(ctx)@.direction(u, label@),
        id == final(ctx).counter,
{
    emit_direction(ctx, u, label, "")
}

/// A vector along a direction.
pub fn emit_vector(ctx: &mut Ctx, dir_id: usize, magnitude: Real, label: &str) -> (id: usize)
    requires
        old(ctx).wf(),
    ensures
        final(ctx).wf(),
        final(ctx)@ == old(ctx)@.vector(dir_id as nat, magnitude, label@),
        id == final(ctx).counter,
{
    ctx.put(
        &Line::new().text("VECTOR('").text(label).text("',#").whole(dir_id).text(",").number(
            magnitude,
        ).text(")"),
    )
}

/// A placement from a point and two directions.
pub fn emit_placement(ctx: &mut Ctx, label: &str, origin: usize, z: usize, x: usize) -> (id: usize)
    requires
        old(ctx).wf(),
    ensures
        final(ctx).wf(),
        final(ctx)@ == old(ctx)@.placement(label@, origin as nat, z as nat, x as nat),
        id == final(ctx).counter,
{
    ctx.put(
        &Line::new().text("AXIS2_PLACEMENT_3D('").text(label).text("',#").whole(origin).text(
            ",#",
        ).whole(z).text(",#").whole(x).text(")"),
    )
}

/// A frame.
pub fn emit_axis2(ctx: &mut Ctx, frame: Frame3, label: &str) -> (id: usize)
    requires
        old(ctx).wf(),
    ensures
        final(ctx).wf(),
        final(ctx)@ == old(ctx)@.axis2(frame, label@),
        id == final(ctx).counter,
{
    let origin_id: usize = emit_point(ctx, frame.origin, label);
    let z_id: usize = emit_direction(ctx, frame.z, label, "_Z");
    let x_id: usize = emit_direction(ctx, frame.x, label, "_X");
    emit_placement(ctx, label, origin_id, z_id, x_id)
}

/// A type over an entity.
fn over_line(kind: &str, id: usize) -> (line: Line)
    ensures
        line@ == Script::empty().text(kind@).text("('',#"@).whole(id as nat),
{
    Line::new().text(kind).text("('',#").whole(id)
}

/// A plane.
pub fn emit_plane(ctx: &mut Ctx, plane: &Plane3) -> (id: usize)
    requires
        old(ctx).wf(),
    ensures
        final(ctx).wf(),
        final(ctx)@ == old(ctx)@.plane(*plane),
        id == final(ctx).counter,
{
    let ax_id: usize = emit_axis2(ctx, plane.frame, "plane");
    ctx.put(&over_line("PLANE", ax_id).text(")"))
}

/// A cylinder.
pub fn emit_cylinder(ctx: &mut Ctx, cyl: &CylSurf) -> (id: usize)
    requires
        old(ctx).wf(),
    ensures
        final(ctx).wf(),
        final(ctx)@ == old(ctx)@.cylinder(*cyl),
        id == final(ctx).counter,
{
    let ax_id: usize = emit_axis2(ctx, cyl.frame, "cyl_axis");
    ctx.put(&over_line("CYLINDRICAL_SURFACE", ax_id).text(",").number(cyl.radius).text(")"))
}

/// A sphere.
pub fn emit_sphere(ctx: &mut Ctx, sph: &SphereSurf) -> (id: usize)
    requires
        old(ctx).wf(),
    ensures
        final(ctx).wf(),
        final(ctx)@ == old(ctx)@.sphere(*sph),
        id == final(ctx).counter,
{
    let ax_id: usize = emit_axis2(ctx, sph.frame, "sph_axis");
    ctx.put(&over_line("SPHERICAL_SURFACE", ax_id).text(",").number(sph.radius).text(")"))
}

/// A torus.
pub fn emit_torus(ctx: &mut Ctx, torus: &TorusSurf) -> (id: usize)
    requires
        old(ctx).wf(),
    ensures
        final(ctx).wf(),
        final(ctx)@ == old(ctx)@.torus(*torus),
        id == final(ctx).counter,
{
    let ax_id: usize = emit_axis2(ctx, torus.frame, "torus_axis");
    ctx.put(
        &over_line("TOROIDAL_SURFACE", ax_id).text(",").number(torus.major_radius).text(",").number(
            torus.minor_radius,
        ).text(")"),
    )
}

/// A line.
pub fn emit_line(ctx: &mut Ctx, line: &Line3) -> (id: usize)
    requires
        old(ctx).wf(),
    ensures
        final(ctx).wf(),
        final(ctx)@ == old(ctx)@.line(*line),
        id == final(ctx).counter,
{
    let pt_id: usize = emit_point(ctx, line.origin, "line_pt");
    let dir_id: usize = emit_unit_direction(ctx, line.direction, "line_dir");
    let vec_id: usize = emit_vector(ctx, dir_id, Real { bits: ONE }, "line_vec");
    ctx.put(&Line::new().text("LINE('',#").whole(pt_id).text(",#").whole(vec_id).text(")"))
}

/// A circle.
pub fn emit_circle(ctx: &mut Ctx, circle: &Circle3) -> (id: usize)
    requires
        old(ctx).wf(),
    ensures
        final(ctx).wf(),
        final(ctx)@ == old(ctx)@.circle(*circle),
        id == final(ctx).counter,
{
    let ax_id: usize = emit_axis2(ctx, circle.frame, "circ_ax");
    ctx.put(&over_line("CIRCLE", ax_id).text(",").number(circle.radius).text(")"))
}

/// An ellipse.
pub fn emit_ellipse(ctx: &mut Ctx, ellipse: &Ellipse3) -> (id: usize)
    requires
        old(ctx).wf(),
    ensures
        final(ctx).wf(),
        final(ctx)@ == old(ctx)@.ellipse(*ellipse),
        id == final(ctx).counter,
{
    let ax_id: usize = emit_axis2(ctx, ellipse.frame, "ellipse_ax");
    ctx.put(
        &over_line("ELLIPSE", ax_id).text(",").number(ellipse.semi_major).text(",").number(
            ellipse.semi_minor,
        ).text(")"),
    )
}

} // verus!
