//! Writing the solids of a model as a STEP file.

use vstd::prelude::*;

use crate::arena::key_order;
use crate::bounds::{Emitted, FaceSheet, emit_face_bounds, face_bounds, flag, sheet_fits};
use crate::brep::{BRep, Model};
use crate::cut::{live_faces, shell_faces, visited};
use crate::entities::{Face, FaceGeom, FaceNormal, Solid};
use crate::ids::{FaceId, ShellId, SolidId};
use crate::script::{Glyph, Line, Script, characters, decimal, lemma_characters_add};
use crate::step::{
    Ctx, StepError, StepState, append, emit_cylinder, emit_placement, emit_plane,
    emit_sphere, emit_torus,
};

verus! {

impl StepState {
    /// No entities.
    pub open spec fn start() -> StepState {
        StepState {
            counter: 0,
            out: seq![],
            vertices: Map::empty(),
            edges: Map::empty(),
            lines: seq![],
            gaps: Set::empty(),
            uses: seq![],
        }
    }

    /// Nothing to be shared any more.
    pub open spec fn cleared(self) -> StepState {
        StepState { vertices: Map::empty(), edges: Map::empty(), ..self }
    }

    /// The surface of a face.
    pub open spec fn surface(self, geom: FaceGeom) -> StepState {
        match geom {
            FaceGeom::Plane(p) => self.plane(p),
            FaceGeom::Cylinder(c) => self.cylinder(c),
            FaceGeom::Sphere(s) => self.sphere(s),
            FaceGeom::Torus(t) => self.torus(t),
        }
    }

    /// A face: its surface, its bounds, and the face of these.
    #[verifier::opaque]
    pub open spec fn advanced_face(self, face: Face, sheet: FaceSheet) -> StepState {
        let s = self.surface(face.geom);
        let b = face_bounds(s, face, sheet);
        b.state.put(
            Script::empty().text("ADVANCED_FACE('',("@).refs(b.ids).text("),(#"@).whole(
                s.counter,
            ).text("),"@).text(flag(face.normal is Same)).text(")"@),
        )
    }
}

/// The first `j` faces of a shell; `sheets` measure the faces of the solid, of
/// which `offset` come before this shell.
pub open spec fn shell_emitted(
    done: Emitted,
    faces: Map<FaceId, Face>,
    ids: Seq<FaceId>,
    sheets: Seq<FaceSheet>,
    offset: int,
    j: int,
) -> Emitted
    decreases j,
{
    if j <= 0 {
        done
    } else {
        let so_far = shell_emitted(done, faces, ids, sheets, offset, j - 1);
        if faces.dom().contains(ids[j - 1]) {
            let k = offset + live_faces(faces, ids.take(j - 1)).len();
            let s = so_far.state.advanced_face(faces[ids[j - 1]], sheets[k]);
            Emitted { state: s, ids: so_far.ids.push(s.last()) }
        } else {
            so_far
        }
    }
}

/// The first `i` shells of a solid. Nothing is shared between shells.
pub open spec fn shells_emitted(
    state: StepState,
    model: Model,
    shells: Seq<ShellId>,
    sheets: Seq<FaceSheet>,
    i: int,
) -> Emitted
    decreases i,
{
    if i <= 0 {
        Emitted { state, ids: seq![] }
    } else {
        let so_far = shells_emitted(state, model, shells, sheets, i - 1);
        let fresh = Emitted { state: so_far.state.cleared(), ids: so_far.ids };
        let id = shells[i - 1];
        if model.shells.dom().contains(id) {
            let ids = model.shells[id].faces@;
            let offset = shell_faces(model, shells.take(i - 1)).len() as int;
            shell_emitted(fresh, model.faces, ids, sheets, offset, ids.len() as int)
        } else {
            fresh
        }
    }
}

/// The faces of a solid.
pub open spec fn solid_emitted(
    state: StepState,
    model: Model,
    solid: SolidId,
    sheets: Seq<FaceSheet>,
) -> Emitted {
    if model.solids.dom().contains(solid) {
        let shells = model.solids[solid].shells@;
        shells_emitted(state, model, shells, sheets, shells.len() as int)
    } else {
        Emitted { state, ids: seq![] }
    }
}

/// Whether the sheets measure the faces of a solid, in order.
pub open spec fn sheets_fit(model: Model, solid: SolidId, sheets: Seq<FaceSheet>) -> bool {
    let ids = visited(model, solid);
    &&& sheets.len() == ids.len()
    &&& forall|k: int| 0 <= k < ids.len() ==> sheet_fits(model.faces[ids[k]], #[trigger] sheets[k])
}

/// A live face is found among the live ones after the live ones before it.
pub proof fn lemma_live_place(faces: Map<FaceId, Face>, ids: Seq<FaceId>, j: int)
    requires
        0 <= j < ids.len(),
        faces.dom().contains(ids[j]),
    ensures
        live_faces(faces, ids.take(j)).len() < live_faces(faces, ids).len(),
        live_faces(faces, ids)[live_faces(faces, ids.take(j)).len() as int] == ids[j],
    decreases ids.len(),
{
    let rest = ids.drop_last();
    if j == ids.len() - 1 {
        assert(ids.take(j) =~= rest);
    } else {
        lemma_live_place(faces, rest, j);
        assert(rest.take(j) =~= ids.take(j));
        assert(rest[j] == ids[j]);
    }
}

/// The faces of a shell are found after those of the shells before it.
pub proof fn lemma_shell_place(model: Model, shells: Seq<ShellId>, i: int, m: int)
    requires
        0 <= i < shells.len(),
        model.shells.dom().contains(shells[i]),
        0 <= m < live_faces(model.faces, model.shells[shells[i]].faces@).len(),
    ensures
        shell_faces(model, shells.take(i)).len() + m < shell_faces(model, shells).len(),
        shell_faces(model, shells)[shell_faces(model, shells.take(i)).len() + m] == live_faces(
            model.faces,
            model.shells[shells[i]].faces@,
        )[m],
    decreases shells.len(),
{
    let rest = shells.drop_last();
    if i == shells.len() - 1 {
        assert(shells.take(i) =~= rest);
    } else {
        lemma_shell_place(model, rest, i, m);
        assert(rest.take(i) =~= shells.take(i));
        assert(rest[i] == shells[i]);
    }
}

/// The surface of a face.
fn emit_face_geometry(ctx: &mut Ctx, face: &Face) -> (id: usize)
    requires
        old(ctx).wf(),
    ensures
        final(ctx).wf(),
        final(ctx)@ == old(ctx)@.surface(face.geom),
        id == final(ctx).counter,
{
    match &face.geom {
        FaceGeom::Plane(p) => emit_plane(ctx, p),
        FaceGeom::Cylinder(c) => emit_cylinder(ctx, c),
        FaceGeom::Sphere(s) => emit_sphere(ctx, s),
        FaceGeom::Torus(t) => emit_torus(ctx, t),
    }
}

/// A face.
pub fn emit_advanced_face(ctx: &mut Ctx, face: &Face, sheet: &FaceSheet) -> (id: usize)
    requires
        old(ctx).wf(),
        sheet_fits(*face, *sheet),
    ensures
        final(ctx).wf(),
        final(ctx)@ == old(ctx)@.advanced_face(*face, *sheet),
        id == final(ctx).counter,
{
    proof {
        reveal(StepState::advanced_face);
    }
    let surf_id: usize = emit_face_geometry(ctx, face);
    let bounds = emit_face_bounds(ctx, face, sheet);
    let sense = match face.normal {
        FaceNormal::Same => ".T.",
        FaceNormal::Reversed => ".F.",
    };
    ctx.put(
        &Line::new().text("ADVANCED_FACE('',(").refs(&bounds).text("),(#").whole(surf_id).text(
            "),",
        ).text(sense).text(")"),
    )
}

/// Writes a model as a STEP file of parts, by AP203.
pub struct StepWriter<'a> {
    brep: &'a BRep,
}

impl<'a> StepWriter<'a> {
    /// The model to be written.
    pub closed spec fn model(&self) -> Model {
        self.brep@
    }

    /// Whether the model is in order.
    pub closed spec fn wf(&self) -> bool {
        self.brep.wf()
    }

    /// Create a new writer for a model.
    pub fn new(brep: &'a BRep) -> (writer: StepWriter<'a>)
        requires
            brep.wf(),
        ensures
            writer.wf(),
            writer.model() == brep@,
    {
        StepWriter { brep }
    }

    /// The faces of a solid; `sheets` measure them in the order of
    /// [`crate::cut::solid_faces`].
    pub fn emit_advanced_faces(&self, ctx: &mut Ctx, solid_id: SolidId, sheets: &Vec<FaceSheet>)
        -> (ids: Vec<usize>)
        requires
            self.wf(),
            old(ctx).wf(),
            sheets_fit(self.model(), solid_id, sheets@),
        ensures
            final(ctx).wf(),
            (Emitted { state: final(ctx)@, ids: ids@ }) == solid_emitted(
                old(ctx)@,
                self.model(),
                solid_id,
                sheets@,
            ),
    {
        let ghost before = ctx@;
        let ghost model = self.brep@;
        let mut ids: Vec<usize> = Vec::new();
        let solid = match self.brep.solids.get(solid_id) {
            None => {
                return ids;
            },
            Some(solid) => solid,
        };
        let total: usize = sheets.len();
        let mut k: usize = 0;
        let mut i: usize = 0;
        while i < solid.shells.len()
            invariant
                i <= solid.shells@.len(),
                total == sheets@.len(),
                self.brep.wf(),
                model == self.brep@,
                model.solids.dom().contains(solid_id),
                *solid == model.solids[solid_id],
                sheets_fit(model, solid_id, sheets@),
                ctx.wf(),
                k == shell_faces(model, solid.shells@.take(i as int)).len(),
                (Emitted { state: ctx@, ids: ids@ }) == shells_emitted(
                    before,
                    model,
                    solid.shells@,
                    sheets@,
                    i as int,
                ),
            decreases solid.shells@.len() - i,
        {
            ctx.vertex_cache.clear();
            ctx.edge_cache.clear();
            let ghost fresh = Emitted { state: ctx@, ids: ids@ };
            let ghost offset = k as int;
            assert(solid.shells@.take(i + 1).drop_last() =~= solid.shells@.take(i as int));
            if let Some(shell) = self.brep.shells.get(solid.shells[i]) {
                let mut j: usize = 0;
                while j < shell.faces.len()
                    invariant
                        j <= shell.faces@.len(),
                        total == sheets@.len(),
                        i < solid.shells@.len(),
                        self.brep.wf(),
                        model == self.brep@,
                        model.solids.dom().contains(solid_id),
                        *solid == model.solids[solid_id],
                        sheets_fit(model, solid_id, sheets@),
                        model.shells.dom().contains(solid.shells@[i as int]),
                        *shell == model.shells[solid.shells@[i as int]],
                        ctx.wf(),
                        offset == shell_faces(model, solid.shells@.take(i as int)).len(),
                        k == offset + live_faces(model.faces, shell.faces@.take(j as int)).len(),
                        (Emitted { state: ctx@, ids: ids@ }) == shell_emitted(
                            fresh,
                            model.faces,
                            shell.faces@,
                            sheets@,
                            offset,
                            j as int,
                        ),
                    decreases shell.faces@.len() - j,
                {
                    assert(shell.faces@.take(j + 1).drop_last() =~= shell.faces@.take(j as int));
                    if let Some(face) = self.brep.faces.get(shell.faces[j]) {
                        proof {
                            let m = live_faces(model.faces, shell.faces@.take(j as int)).len();
                            lemma_live_place(model.faces, shell.faces@, j as int);
                            lemma_shell_place(model, solid.shells@, i as int, m as int);
                            assert(sheet_fits(
                                model.faces[visited(model, solid_id)[k as int]],
                                sheets@[k as int],
                            ));
                        }
                        let id: usize = emit_advanced_face(ctx, face, &sheets[k]);
                        ids.push(id);
                        k = k + 1;
                    }
                    j = j + 1;
                }
                assert(shell.faces@.take(j as int) =~= shell.faces@);
            }
            i = i + 1;
        }
        ids
    }
}

/// The characters of a label: a name and a place.
pub open spec fn label_text(base: Seq<char>, place: nat) -> Seq<char> {
    base + seq!['_'] + decimal(place)
}

/// What a solid is called: its name, or something else if it has none.
pub open spec fn solid_base(solid: Solid, other: Seq<char>) -> Seq<char> {
    match solid.name {
        Some(name) if name@.len() > 0 => name@,
        _ => other,
    }
}

/// A text and the label of a solid.
pub open spec fn label(script: Script, solid: Solid, other: Seq<char>, place: nat) -> Script {
    script.text(label_text(solid_base(solid, other), place))
}

/// Add the label of a solid.
fn add_label(line: Line, solid: &Solid, other: &str, place: usize) -> (labelled: Line)
    ensures
        labelled@ == label(line@, *solid, other@, place as nat),
{
    let base = match &solid.name {
        Some(name) => if name.as_str().is_empty() {
            other
        } else {
            name.as_str()
        },
        None => other,
    };
    proof {
        let text = base@;
        reveal_strlit("_");
        assert("_"@ =~= seq!['_']);
        lemma_characters_add(text, seq!['_']);
        lemma_characters_add(text + seq!['_'], decimal(place as nat));
        let script = line@;
        assert(script.text(text).text("_"@).whole(place as nat).glyphs =~= script.text(
            label_text(text, place as nat),
        ).glyphs);
    }
    line.text(base).text("_").whole(place)
}

/// The application protocol that a file follows.
#[derive(Clone, Copy, Debug, PartialEq, Eq, Structural)]
pub enum Protocol {
    /// Configuration controlled design, for parts.
    Ap203,
    /// Automotive design, for assemblies.
    Ap214,
}

/// The application of a protocol.
pub open spec fn application_text(protocol: Protocol) -> Seq<char> {
    match protocol {
        Protocol::Ap203 => "APPLICATION_CONTEXT('configuration controlled 3d designs of mechanical parts and assemblies')"@,
        Protocol::Ap214 => "APPLICATION_CONTEXT('core data for automotive mechanical design processes')"@,
    }
}

/// The definition of a protocol, up to its application.
pub open spec fn definition_text(protocol: Protocol) -> Seq<char> {
    match protocol {
        Protocol::Ap203 => "APPLICATION_PROTOCOL_DEFINITION('international standard','config_control_design',1994,#"@,
        Protocol::Ap214 => "APPLICATION_PROTOCOL_DEFINITION('draft international standard','automotive_design',1998,#"@,
    }
}

/// The schema of a protocol.
pub open spec fn schema_text(protocol: Protocol) -> Seq<char> {
    match protocol {
        Protocol::Ap203 => "CONFIG_CONTROL_DESIGN"@,
        Protocol::Ap214 => "AUTOMOTIVE_DESIGN { 1 0 10303 214 1 1 1 1 }"@,
    }
}

impl StepState {
    /// The shell of some faces, and its solid.
    #[verifier::opaque]
    pub open spec fn manifold(
        self,
        faces: Seq<usize>,
        solid: Solid,
        other: Seq<char>,
        place: nat,
    ) -> StepState {
        let s = self.put(Script::empty().text("CLOSED_SHELL('',("@).refs(faces).text("))"@));
        s.put(
            label(Script::empty().text("MANIFOLD_SOLID_BREP('"@), solid, other, place).text(
                "',#"@,
            ).whole(s.counter).text(")"@),
        )
    }

    /// The application and the product context.
    #[verifier::opaque]
    pub open spec fn application(self, protocol: Protocol) -> StepState {
        let s1 = self.put(Script::empty().text(application_text(protocol)));
        let s2 = s1.put(
            Script::empty().text(definition_text(protocol)).whole(s1.counter).text(")"@),
        );
        s2.put(
            Script::empty().text("PRODUCT_CONTEXT('',#"@).whole(s1.counter).text(
                ",'mechanical')"@,
            ),
        )
    }

    /// A formation, a definition and a shape of the last product.
    #[verifier::opaque]
    pub open spec fn product_shape(self, context: nat) -> StepState {
        let s1 = self.put(
            Script::empty().text("PRODUCT_DEFINITION_FORMATION('','',#"@).whole(
                self.counter,
            ).text(")"@),
        );
        let s2 = s1.put(
            Script::empty().text("PRODUCT_DEFINITION('design','',#"@).whole(s1.counter).text(
                ",#"@,
            ).whole(context).text(")"@),
        );
        s2.put(
            Script::empty().text("PRODUCT_DEFINITION_SHAPE('','',#"@).whole(s2.counter).text(
                ")"@,
            ),
        )
    }

    /// The geometric context, with the units that it refers to ahead.
    pub open spec fn geometric_context(self) -> StepState {
        self.put(
            Script::empty().text(
                "(GEOMETRIC_REPRESENTATION_CONTEXT(3) GLOBAL_UNCERTAINTY_ASSIGNED_CONTEXT((#"@,
            ).whole(self.counter + 2).text(")) GLOBAL_UNIT_ASSIGNED_CONTEXT((#"@).whole(
                self.counter + 3,
            ).text(",#"@).whole(self.counter + 4).text(",#"@).whole(self.counter + 5).text(
                ")) REPRESENTATION_CONTEXT('','3D'))"@,
            ),
        )
    }

    /// An empty line.
    pub open spec fn blank(self) -> StepState {
        StepState {
            out: self.out + characters("\n"@),
            gaps: self.gaps.insert(self.counter),
            ..self
        }
    }

    /// The uncertainty and the units of length, angle and solid angle.
    #[verifier::opaque]
    pub open spec fn units(self) -> StepState {
        self.put(
            Script::empty().text(
                "UNCERTAINTY_MEASURE_WITH_UNIT(LENGTH_MEASURE(1.0E-007),#"@,
            ).whole(self.counter + 2).text(",('',''))"@),
        ).put(
            Script::empty().text("(LENGTH_UNIT() NAMED_UNIT(*) SI_UNIT(.MILLI.,.METRE.))"@),
        ).put(
            Script::empty().text("(NAMED_UNIT(*) PLANE_ANGLE_UNIT() SI_UNIT($,.RADIAN.))"@),
        ).put(
            Script::empty().text("(NAMED_UNIT(*) SI_UNIT($,.STERADIAN.) SOLID_ANGLE_UNIT())"@),
        )
    }

    /// A link from a shape to a representation of it.
    pub open spec fn shape_link(self, shape: nat, representation: nat) -> StepState {
        self.put(
            Script::empty().text("SHAPE_DEFINITION_REPRESENTATION(#"@).whole(shape).text(
                ",#"@,
            ).whole(representation).text(")"@),
        )
    }
}

impl StepState {
    /// A part: the shell of some faces and its solid, the product of the solid
    /// with its shape, and the representation of the shape by the solid.
    #[verifier::opaque]
    pub open spec fn part(
        self,
        faces: Seq<usize>,
        solid: Solid,
        other: Seq<char>,
        place: nat,
        context: nat,
        geometry: nat,
    ) -> StepState {
        let s1 = self.manifold(faces, solid, other, place);
        let s2 = s1.put(
            label(
                label(Script::empty().text("PRODUCT('"@), solid, other, place).text("','"@),
                solid,
                other,
                place,
            ).text("','',(#"@).whole(context).text("))"@),
        );
        let s3 = s2.product_shape(context);
        let s4 = s3.put(
            label(Script::empty().text("SHAPE_REPRESENTATION('"@), solid, other, place).text(
                "',(#"@,
            ).whole(s1.counter).text("),#"@).whole(geometry).text(")"@),
        );
        s4.shape_link(s3.counter, s4.counter)
    }
}

/// The first `k` solids; ids of no solid are passed over.
pub open spec fn solids_emitted(
    state: StepState,
    model: Model,
    ids: Seq<SolidId>,
    sheets: Seq<Vec<FaceSheet>>,
    k: int,
) -> Emitted
    decreases k,
{
    if k <= 0 {
        Emitted { state, ids: seq![] }
    } else {
        let so_far = solids_emitted(state, model, ids, sheets, k - 1);
        let id = ids[k - 1];
        if model.solids.dom().contains(id) {
            let faces = solid_emitted(so_far.state, model, id, sheets[k - 1]@);
            let s = faces.state.manifold(
                faces.ids,
                model.solids[id],
                "solid"@,
                (k - 1) as nat,
            );
            Emitted { state: s, ids: so_far.ids.push(s.last()) }
        } else {
            so_far
        }
    }
}

/// How many of the first `k` ids name a solid.
pub open spec fn solids_named(model: Model, ids: Seq<SolidId>, k: int) -> nat
    decreases k,
{
    if k <= 0 {
        0
    } else {
        solids_named(model, ids, k - 1) + (if model.solids.dom().contains(ids[k - 1]) {
            1nat
        } else {
            0
        })
    }
}

/// The product of a part: the first goes by a plain name, the others are
/// numbered.
pub open spec fn product_body(place: nat, context: nat) -> Script {
    if place == 0 {
        Script::empty().text("PRODUCT('cadcore_part','cadcore part','',(#"@).whole(context).text(
            "))"@,
        )
    } else {
        Script::empty().text("PRODUCT('cadcore_part_"@).whole(place).text("','cadcore part "@).whole(
            place,
        ).text("','',(#"@).whole(context).text("))"@)
    }
}

/// What represents the shape of a part: its solid.
pub open spec fn part_shape_body(item: nat, geometry: nat) -> Script {
    Script::empty().text("SHAPE_REPRESENTATION('',(#"@).whole(item).text("),#"@).whole(
        geometry,
    ).text(")"@)
}

/// The first `k` products, each with its shape.
pub open spec fn products_emitted(state: StepState, context: nat, k: nat) -> StepState
    decreases k,
{
    if k == 0 {
        state
    } else {
        products_emitted(state, context, (k - 1) as nat).put(
            product_body((k - 1) as nat, context),
        ).product_shape(context)
    }
}

/// The shapes of the first `k` parts, each represented by its solid; `base`
/// entities come before the products.
pub open spec fn shapes_emitted(
    state: StepState,
    items: Seq<usize>,
    base: nat,
    geometry: nat,
    k: nat,
) -> StepState
    decreases k,
{
    if k == 0 {
        state
    } else {
        let s = shapes_emitted(state, items, base, geometry, (k - 1) as nat).put(
            part_shape_body(items[k - 1] as nat, geometry),
        );
        s.shape_link(base + 4 * k, s.counter)
    }
}

/// The ids of the solids to be written: those asked for, or all.
pub open spec fn exported(model: Model, asked: Seq<SolidId>) -> Seq<SolidId> {
    if asked.len() == 0 {
        key_order(model.solids.dom())
    } else {
        asked
    }
}

/// The entities of a file that holds solids as parts: a product for each, the
/// solids, the geometric context and its units, and for each product the
/// representation of its shape by its solid.
pub open spec fn part_state(
    model: Model,
    ids: Seq<SolidId>,
    sheets: Seq<Vec<FaceSheet>>,
) -> StepState {
    let n = solids_named(model, ids, ids.len() as int);
    let s1 = StepState::start().application(Protocol::Ap203);
    let s2 = products_emitted(s1, s1.counter, n);
    let solids = solids_emitted(s2, model, ids, sheets, ids.len() as int);
    let s3 = solids.state.geometric_context();
    shapes_emitted(s3.blank().units(), solids.ids, s1.counter, s3.counter, n)
}

/// The lines before the entities.
pub open spec fn file_head(description: Seq<char>, protocol: Protocol) -> Seq<Glyph> {
    Script::empty().text("ISO-10303-21;\nHEADER;\n  FILE_DESCRIPTION(('"@).text(description).text(
        "'),'2;1');\n  FILE_NAME('','',(''),(''),'cadcore 0.1','','');\n  FILE_SCHEMA(('"@,
    ).text(schema_text(protocol)).text("'));\nENDSEC;\nDATA;\n"@).glyphs
}

/// The lines after the entities.
pub open spec fn file_tail() -> Seq<Glyph> {
    Script::empty().text("ENDSEC;\nEND-ISO-10303-21;\n"@).glyphs
}

/// A file of entities.
pub open spec fn file(description: Seq<char>, protocol: Protocol, state: StepState) -> Seq<Glyph> {
    (file_head(description, protocol) + state.out) + file_tail()
}

/// The application of a protocol.
fn application_of(protocol: Protocol) -> (text: &'static str)
    ensures
        text@ == application_text(protocol),
{
    match protocol {
        Protocol::Ap203 => "APPLICATION_CONTEXT('configuration controlled 3d designs of mechanical parts and assemblies')",
        Protocol::Ap214 => "APPLICATION_CONTEXT('core data for automotive mechanical design processes')",
    }
}

/// The definition of a protocol, up to its application.
fn definition_of(protocol: Protocol) -> (text: &'static str)
    ensures
        text@ == definition_text(protocol),
{
    match protocol {
        Protocol::Ap203 => "APPLICATION_PROTOCOL_DEFINITION('international standard','config_control_design',1994,#",
        Protocol::Ap214 => "APPLICATION_PROTOCOL_DEFINITION('draft international standard','automotive_design',1998,#",
    }
}

/// The schema of a protocol.
fn schema_of(protocol: Protocol) -> (text: &'static str)
    ensures
        text@ == schema_text(protocol),
{
    match protocol {
        Protocol::Ap203 => "CONFIG_CONTROL_DESIGN",
        Protocol::Ap214 => "AUTOMOTIVE_DESIGN { 1 0 10303 214 1 1 1 1 }",
    }
}

/// A file of entities.
fn write_file(description: &str, protocol: Protocol, ctx: &Ctx) -> (out: Vec<Glyph>)
    ensures
        out@ == file(description@, protocol, ctx@),
{
    let head = Line::new().text("ISO-10303-21;\nHEADER;\n  FILE_DESCRIPTION(('").text(
        description,
    ).text(
        "'),'2;1');\n  FILE_NAME('','',(''),(''),'cadcore 0.1','','');\n  FILE_SCHEMA(('",
    ).text(schema_of(protocol)).text("'));\nENDSEC;\nDATA;\n");
    let tail = Line::new().text("ENDSEC;\nEND-ISO-10303-21;\n");
    let mut out = head.glyphs;
    append(&mut out, &ctx.out);
    append(&mut out, &tail.glyphs);
    out
}

/// The shell of some faces, and its solid.
fn emit_manifold(
    ctx: &mut Ctx,
    faces: &Vec<usize>,
    solid: &Solid,
    other: &str,
    place: usize,
) -> (id: usize)
    requires
        old(ctx).wf(),
    ensures
        final(ctx).wf(),
        final(ctx)@ == old(ctx)@.manifold(faces@, *solid, other@, place as nat),
        id == final(ctx).counter,
{
    proof {
        reveal(StepState::manifold);
    }
    let csb_id: usize = ctx.put(&Line::new().text("CLOSED_SHELL('',(").refs(faces).text("))"));
    ctx.put(
        &add_label(Line::new().text("MANIFOLD_SOLID_BREP('"), solid, other, place).text(
            "',#",
        ).whole(csb_id).text(")"),
    )
}

/// The application and the product context.
fn emit_application(ctx: &mut Ctx, protocol: Protocol) -> (id: usize)
    requires
        old(ctx).wf(),
    ensures
        final(ctx).wf(),
        final(ctx)@ == old(ctx)@.application(protocol),
        id == final(ctx).counter,
{
    proof {
        reveal(StepState::application);
    }
    let app_ctx_id: usize = ctx.put(&Line::new().text(application_of(protocol)));
    let apd_id: usize = ctx.put(
        &Line::new().text(definition_of(protocol)).whole(app_ctx_id).text(")"),
    );
    ctx.put(&Line::new().text("PRODUCT_CONTEXT('',#").whole(app_ctx_id).text(",'mechanical')"))
}

/// A formation, a definition and a shape of the last product; the ids of the
/// definition and of the shape.
fn emit_product_shape(ctx: &mut Ctx, context: usize) -> (ids: (usize, usize))
    requires
        old(ctx).wf(),
    ensures
        final(ctx).wf(),
        final(ctx)@ == old(ctx)@.product_shape(context as nat),
        final(ctx).counter == old(ctx).counter + 3,
        ids.0 == final(ctx).counter - 1,
        ids.1 == final(ctx).counter,
{
    proof {
        reveal(StepState::product_shape);
    }
    let prod_id: usize = ctx.counter;
    let form_id: usize = ctx.put(
        &Line::new().text("PRODUCT_DEFINITION_FORMATION('','',#").whole(prod_id).text(")"),
    );
    let def_id: usize = ctx.put(
        &Line::new().text("PRODUCT_DEFINITION('design','',#").whole(form_id).text(",#").whole(
            context,
        ).text(")"),
    );
    let shape_id: usize = ctx.put(
        &Line::new().text("PRODUCT_DEFINITION_SHAPE('','',#").whole(def_id).text(")"),
    );
    (def_id, shape_id)
}

/// The geometric context.
fn emit_geometric_context(ctx: &mut Ctx) -> (id: usize)
    requires
        old(ctx).wf(),
    ensures
        final(ctx).wf(),
        final(ctx)@ == old(ctx)@.geometric_context(),
        id == final(ctx).counter,
{
    let held: usize = ctx.out.len();
    let n: usize = ctx.counter;
    ctx.put(
        &Line::new().text(
            "(GEOMETRIC_REPRESENTATION_CONTEXT(3) GLOBAL_UNCERTAINTY_ASSIGNED_CONTEXT((#",
        ).whole(n + 2).text(")) GLOBAL_UNIT_ASSIGNED_CONTEXT((#").whole(n + 3).text(",#").whole(
            n + 4,
        ).text(",#").whole(n + 5).text(")) REPRESENTATION_CONTEXT('','3D'))"),
    )
}

/// The uncertainty and the units.
fn emit_units(ctx: &mut Ctx)
    requires
        old(ctx).wf(),
    ensures
        final(ctx).wf(),
        final(ctx)@ == old(ctx)@.units(),
{
    proof {
        reveal(StepState::units);
    }
    let held: usize = ctx.out.len();
    let n: usize = ctx.counter;
    let unc_id: usize = ctx.put(
        &Line::new().text("UNCERTAINTY_MEASURE_WITH_UNIT(LENGTH_MEASURE(1.0E-007),#").whole(
            n + 2,
        ).text(",('',''))"),
    );
    let lu_id: usize = ctx.put(
        &Line::new().text("(LENGTH_UNIT() NAMED_UNIT(*) SI_UNIT(.MILLI.,.METRE.))"),
    );
    let au_id: usize = ctx.put(
        &Line::new().text("(NAMED_UNIT(*) PLANE_ANGLE_UNIT() SI_UNIT($,.RADIAN.))"),
    );
    let su_id: usize = ctx.put(
        &Line::new().text("(NAMED_UNIT(*) SI_UNIT($,.STERADIAN.) SOLID_ANGLE_UNIT())"),
    );
}

/// A link from a shape to a representation of it.
fn emit_shape_link(ctx: &mut Ctx, shape: usize, representation: usize) -> (id: usize)
    requires
        old(ctx).wf(),
    ensures
        final(ctx).wf(),
        final(ctx)@ == old(ctx)@.shape_link(shape as nat, representation as nat),
        id == final(ctx).counter,
{
    ctx.put(
        &Line::new().text("SHAPE_DEFINITION_REPRESENTATION(#").whole(shape).text(",#").whole(
            representation,
        ).text(")"),
    )
}

/// An empty line.
fn emit_blank(ctx: &mut Ctx)
    requires
        old(ctx).wf(),
    ensures
        final(ctx).wf(),
        final(ctx)@ == old(ctx)@.blank(),
{
    let newline = Line::new().text("\n");
    append(&mut ctx.out, &newline.glyphs);
    proof {
        assert(newline.glyphs@ =~= characters("\n"@));
        ctx.gaps@ = ctx.gaps@.insert(ctx.counter as nat);
    }
}

/// The product of a part, with its shape.
fn emit_product(ctx: &mut Ctx, place: usize, context: usize)
    requires
        old(ctx).wf(),
    ensures
        final(ctx).wf(),
        final(ctx)@ == old(ctx)@.put(product_body(place as nat, context as nat)).product_shape(
            context as nat,
        ),
        final(ctx).counter == old(ctx).counter + 4,
{
    let line = if place == 0 {
        Line::new().text("PRODUCT('cadcore_part','cadcore part','',(#").whole(context).text("))")
    } else {
        Line::new().text("PRODUCT('cadcore_part_").whole(place).text("','cadcore part ").whole(
            place,
        ).text("','',(#").whole(context).text("))")
    };
    let prod_id: usize = ctx.put(&line);
    let shape_ids = emit_product_shape(ctx, context);
}

/// A part; the ids of the product's definition and of the representation.
fn emit_part(
    ctx: &mut Ctx,
    faces: &Vec<usize>,
    solid: &Solid,
    other: &str,
    place: usize,
    context: usize,
    geometry: usize,
) -> (ids: (usize, usize))
    requires
        old(ctx).wf(),
    ensures
        final(ctx).wf(),
        final(ctx)@ == old(ctx)@.part(
            faces@,
            *solid,
            other@,
            place as nat,
            context as nat,
            geometry as nat,
        ),
        ids.0 == final(ctx).counter - 3,
        ids.1 == final(ctx).counter - 1,
{
    proof {
        reveal(StepState::part);
    }
    let msb_id: usize = emit_manifold(ctx, faces, solid, other, place);
    let prod_id: usize = ctx.put(
        &add_label(
            add_label(Line::new().text("PRODUCT('"), solid, other, place).text("','"),
            solid,
            other,
            place,
        ).text("','',(#").whole(context).text("))"),
    );
    let shape_ids = emit_product_shape(ctx, context);
    let sr_id: usize = ctx.put(
        &add_label(Line::new().text("SHAPE_REPRESENTATION('"), solid, other, place).text(
            "',(#",
        ).whole(msb_id).text("),#").whole(geometry).text(")"),
    );
    let sdr_id: usize = emit_shape_link(ctx, shape_ids.1, sr_id);
    (shape_ids.0, sr_id)
}

/// Whether the sheets measure the faces of some solids.
pub open spec fn all_sheets_fit(
    model: Model,
    ids: Seq<SolidId>,
    sheets: Seq<Vec<FaceSheet>>,
) -> bool {
    &&& sheets.len() == ids.len()
    &&& forall|k: int| 0 <= k < ids.len() ==> sheets_fit(model, ids[k], (#[trigger] sheets[k])@)
}

impl<'a> StepWriter<'a> {
    /// Write the solids with the given ids, or all of them if none is given;
    /// `sheets` measure the faces of each.
    pub fn to_step(&self, solid_ids: &[SolidId], sheets: &[Vec<FaceSheet>]) -> (result: Result<
        Vec<Glyph>,
        StepError,
    >)
        requires
            self.wf(),
            all_sheets_fit(self.model(), exported(self.model(), solid_ids@), sheets@),
        ensures
            result is Ok,
            result->Ok_0@ == file(
                "cadcore B-Rep export"@,
                Protocol::Ap203,
                part_state(self.model(), exported(self.model(), solid_ids@), sheets@),
            ),
            part_state(self.model(), exported(self.model(), solid_ids@), sheets@).counter
                <= usize::MAX,
    {
        let ghost model = self.model();
        let mut ctx = Ctx::new();
        let context: usize = emit_application(&mut ctx, Protocol::Ap203);
        let ids = self.solids_to_export(solid_ids);
        let ghost s1 = ctx@;
        let mut named: usize = 0;
        let mut i: usize = 0;
        while i < ids.len()
            invariant
                i <= ids@.len(),
                named <= i,
                self.wf(),
                model == self.model(),
                s1.counter == context,
                ctx.wf(),
                named == solids_named(model, ids@, i as int),
                ctx@ == products_emitted(s1, context as nat, named as nat),
                ctx.counter == context + 4 * named,
            decreases ids@.len() - i,
        {
            if self.brep.solids.get(ids[i]).is_some() {
                emit_product(&mut ctx, named, context);
                named = named + 1;
            }
            i = i + 1;
        }
        let ghost s2 = ctx@;
        let mut items: Vec<usize> = Vec::new();
        let mut k: usize = 0;
        while k < ids.len()
            invariant
                k <= ids@.len(),
                self.wf(),
                model == self.model(),
                all_sheets_fit(model, ids@, sheets@),
                ctx.wf(),
                context + 4 * named <= usize::MAX,
                items@.len() == solids_named(model, ids@, k as int),
                (Emitted { state: ctx@, ids: items@ }) == solids_emitted(
                    s2,
                    model,
                    ids@,
                    sheets@,
                    k as int,
                ),
            decreases ids@.len() - k,
        {
            assert(sheets_fit(model, ids@[k as int], sheets@[k as int]@));
            if let Some(solid) = self.brep.solids.get(ids[k]) {
                let faces = self.emit_advanced_faces(&mut ctx, ids[k], &sheets[k]);
                let msb_id: usize = emit_manifold(&mut ctx, &faces, solid, "solid", k);
                items.push(msb_id);
            }
            k = k + 1;
        }
        let geometry: usize = emit_geometric_context(&mut ctx);
        emit_blank(&mut ctx);
        emit_units(&mut ctx);
        let ghost s4 = ctx@;
        let mut j: usize = 0;
        while j < named
            invariant
                j <= named,
                named == items@.len(),
                context + 4 * named <= usize::MAX,
                ctx.wf(),
                ctx@ == shapes_emitted(s4, items@, context as nat, geometry as nat, j as nat),
            decreases named - j,
        {
            let shape: usize = context + 4 * (j + 1);
            let sr_id: usize = ctx.put(
                &Line::new().text("SHAPE_REPRESENTATION('',(#").whole(items[j]).text("),#").whole(
                    geometry,
                ).text(")"),
            );
            let link: usize = emit_shape_link(&mut ctx, shape, sr_id);
            j = j + 1;
        }
        Ok(write_file("cadcore B-Rep export", Protocol::Ap203, &ctx))
    }

    /// The ids of the solids to be written.
    fn solids_to_export(&self, solid_ids: &[SolidId]) -> (ids: Vec<SolidId>)
        requires
            self.wf(),
        ensures
            ids@ == exported(self.model(), solid_ids@),
    {
        if solid_ids.len() == 0 {
            return self.brep.solids.keys();
        }
        let mut ids: Vec<SolidId> = Vec::new();
        let mut i: usize = 0;
        while i < solid_ids.len()
            invariant
                i <= solid_ids@.len(),
                ids@ == solid_ids@.take(i as int),
            decreases solid_ids@.len() - i,
        {
            ids.push(solid_ids[i]);
            assert(ids@ =~= solid_ids@.take(i + 1));
            i = i + 1;
        }
        assert(solid_ids@.take(i as int) =~= solid_ids@);
        ids
    }
}

/// Write all solids of a model; `sheets` measure the faces of each.
pub fn brep_to_step(brep: &BRep, sheets: &[Vec<FaceSheet>]) -> (result: Result<
    Vec<Glyph>,
    StepError,
>)
    requires
        brep.wf(),
        all_sheets_fit(brep@, key_order(brep@.solids.dom()), sheets@),
    ensures
        result is Ok,
        result->Ok_0@ == file(
            "cadcore B-Rep export"@,
            Protocol::Ap203,
            part_state(brep@, key_order(brep@.solids.dom()), sheets@),
        ),
        part_state(brep@, key_order(brep@.solids.dom()), sheets@).counter <= usize::MAX,
{
    let all: Vec<SolidId> = Vec::new();
    StepWriter::new(brep).to_step(all.as_slice(), sheets)
}

/// The entities of an assembly that its components refer to.
#[derive(Clone, Copy, Debug)]
pub struct AssemblyIds {
    /// The product context.
    pub context: usize,
    /// The geometric context.
    pub geometry: usize,
    /// The origin.
    pub origin: usize,
    /// The z direction.
    pub z: usize,
    /// The x direction.
    pub x: usize,
    /// The assembly's product definition.
    pub definition: usize,
    /// The assembly's shape representation.
    pub representation: usize,
}

/// The entities of an assembly before its components.
pub open spec fn assembly_head() -> StepState {
    let s1 = StepState::start().application(Protocol::Ap214);
    let s2 = s1.geometric_context();
    let s4 = s2.units().put(Script::empty().text("CARTESIAN_POINT('',(0.0,0.0,0.0))"@));
    let s5 = s4.put(Script::empty().text("DIRECTION('',(0.0,0.0,1.0))"@));
    let s6 = s5.put(Script::empty().text("DIRECTION('',(1.0,0.0,0.0))"@));
    let s7 = s6.placement(""@, s4.counter, s5.counter, s6.counter);
    let s8 = s7.put(
        Script::empty().text("PRODUCT('scaffold_assembly','scaffold_assembly','',(#"@).whole(
            s1.counter,
        ).text("))"@),
    ).product_shape(s1.counter);
    let s9 = s8.put(
        Script::empty().text("SHAPE_REPRESENTATION('scaffold_assembly',(#"@).whole(
            s7.counter,
        ).text("),#"@).whole(s2.counter).text(")"@),
    );
    s9.shape_link(s8.counter, s9.counter)
}

/// The entities of an assembly that its components refer to.
pub open spec fn assembly_ids() -> AssemblyIds {
    let context = StepState::start().application(Protocol::Ap214);
    let geometry = context.geometric_context();
    let units = geometry.units();
    AssemblyIds {
        context: context.last(),
        geometry: geometry.last(),
        origin: (units.counter + 1) as usize,
        z: (units.counter + 2) as usize,
        x: (units.counter + 3) as usize,
        definition: (units.counter + 7) as usize,
        representation: (units.counter + 9) as usize,
    }
}

impl StepState {
    /// A component: a part, and its place in the assembly, which is the
    /// assembly's own.
    #[verifier::opaque]
    pub open spec fn component(
        self,
        faces: Seq<usize>,
        solid: Solid,
        place: nat,
        assembly: AssemblyIds,
    ) -> StepState {
        let s5 = self.part(
            faces,
            solid,
            "part"@,
            place,
            assembly.context as nat,
            assembly.geometry as nat,
        );
        let definition = (s5.counter - 3) as nat;
        let representation = (s5.counter - 1) as nat;
        let s6 = s5.put(
            label(
                Script::empty().text("NEXT_ASSEMBLY_USAGE_OCCURRENCE('"@).whole(place).text(
                    "','"@,
                ),
                solid,
                "part"@,
                place,
            ).text("','',#"@).whole(assembly.definition as nat).text(",#"@).whole(
                definition,
            ).text(",$)"@),
        );
        let s7 = s6.placement(
            ""@,
            assembly.origin as nat,
            assembly.z as nat,
            assembly.x as nat,
        );
        let s8 = s7.placement(
            ""@,
            assembly.origin as nat,
            assembly.z as nat,
            assembly.x as nat,
        );
        let s9 = s8.put(
            Script::empty().text("ITEM_DEFINED_TRANSFORMATION('','',#"@).whole(s7.counter).text(
                ",#"@,
            ).whole(s8.counter).text(")"@),
        );
        let s10 = s9.put(
            Script::empty().text("(REPRESENTATION_RELATIONSHIP('','',#"@).whole(
                representation,
            ).text(",#"@).whole(assembly.representation as nat).text(
                ") REPRESENTATION_RELATIONSHIP_WITH_TRANSFORMATION(#"@,
            ).whole(s9.counter).text(") SHAPE_REPRESENTATION_RELATIONSHIP())"@),
        );
        s10.put(
            Script::empty().text("CONTEXT_DEPENDENT_SHAPE_REPRESENTATION(#"@).whole(
                s10.counter,
            ).text(",#"@).whole(s6.counter).text(")"@),
        )
    }
}

/// The first `k` solids as components; a solid without faces is none.
pub open spec fn components_emitted(
    state: StepState,
    model: Model,
    ids: Seq<SolidId>,
    sheets: Seq<Vec<FaceSheet>>,
    assembly: AssemblyIds,
    k: int,
) -> StepState
    decreases k,
{
    if k <= 0 {
        state
    } else {
        let so_far = components_emitted(state, model, ids, sheets, assembly, k - 1);
        let id = ids[k - 1];
        if model.solids.dom().contains(id) {
            let faces = solid_emitted(so_far, model, id, sheets[k - 1]@);
            if faces.ids.len() == 0 {
                faces.state
            } else {
                faces.state.component(
                    faces.ids,
                    model.solids[id],
                    (k - 1) as nat,
                    assembly,
                )
            }
        } else {
            so_far
        }
    }
}

/// The entities of a file that holds solids as components of an assembly.
pub open spec fn assembly_state(
    model: Model,
    ids: Seq<SolidId>,
    sheets: Seq<Vec<FaceSheet>>,
) -> StepState {
    components_emitted(assembly_head(), model, ids, sheets, assembly_ids(), ids.len() as int)
}

/// The entities of an assembly before its components.
fn emit_assembly_head(ctx: &mut Ctx) -> (ids: AssemblyIds)
    requires
        old(ctx).wf(),
        old(ctx)@ == StepState::start(),
    ensures
        final(ctx).wf(),
        final(ctx)@ == assembly_head(),
        ids == assembly_ids(),
{
    let context: usize = emit_application(ctx, Protocol::Ap214);
    let geometry: usize = emit_geometric_context(ctx);
    emit_units(ctx);
    let origin: usize = ctx.put(&Line::new().text("CARTESIAN_POINT('',(0.0,0.0,0.0))"));
    let z: usize = ctx.put(&Line::new().text("DIRECTION('',(0.0,0.0,1.0))"));
    let x: usize = ctx.put(&Line::new().text("DIRECTION('',(1.0,0.0,0.0))"));
    let ax: usize = emit_placement(ctx, "", origin, z, x);
    let product: usize = ctx.put(
        &Line::new().text("PRODUCT('scaffold_assembly','scaffold_assembly','',(#").whole(
            context,
        ).text("))"),
    );
    let shape_ids = emit_product_shape(ctx, context);
    let representation: usize = ctx.put(
        &Line::new().text("SHAPE_REPRESENTATION('scaffold_assembly',(#").whole(ax).text(
            "),#",
        ).whole(geometry).text(")"),
    );
    let link: usize = emit_shape_link(ctx, shape_ids.1, representation);
    AssemblyIds { context, geometry, origin, z, x, definition: shape_ids.0, representation }
}

/// A component of an assembly.
fn emit_component(
    ctx: &mut Ctx,
    faces: &Vec<usize>,
    solid: &Solid,
    place: usize,
    assembly: AssemblyIds,
)
    requires
        old(ctx).wf(),
    ensures
        final(ctx).wf(),
        final(ctx)@ == old(ctx)@.component(faces@, *solid, place as nat, assembly),
{
    proof {
        reveal(StepState::component);
    }
    let part_ids = emit_part(
        ctx,
        faces,
        solid,
        "part",
        place,
        assembly.context,
        assembly.geometry,
    );
    let nauo_id: usize = ctx.put(
        &add_label(
            Line::new().text("NEXT_ASSEMBLY_USAGE_OCCURRENCE('").whole(place).text("','"),
            solid,
            "part",
            place,
        ).text("','',#").whole(assembly.definition).text(",#").whole(part_ids.0).text(",$)"),
    );
    let source_id: usize = emit_placement(ctx, "", assembly.origin, assembly.z, assembly.x);
    let target_id: usize = emit_placement(ctx, "", assembly.origin, assembly.z, assembly.x);
    let xform_id: usize = ctx.put(
        &Line::new().text("ITEM_DEFINED_TRANSFORMATION('','',#").whole(source_id).text(
            ",#",
        ).whole(target_id).text(")"),
    );
    let rr_id: usize = ctx.put(
        &Line::new().text("(REPRESENTATION_RELATIONSHIP('','',#").whole(part_ids.1).text(",#").whole(
            assembly.representation,
        ).text(") REPRESENTATION_RELATIONSHIP_WITH_TRANSFORMATION(#").whole(xform_id).text(
            ") SHAPE_REPRESENTATION_RELATIONSHIP())",
        ),
    );
    let cdsr_id: usize = ctx.put(
        &Line::new().text("CONTEXT_DEPENDENT_SHAPE_REPRESENTATION(#").whole(rr_id).text(
            ",#",
        ).whole(nauo_id).text(")"),
    );
}

/// Write all solids of a model as the components of one assembly; `sheets`
/// measure the faces of each.
pub fn brep_to_step_assembly(brep: &BRep, sheets: &[Vec<FaceSheet>]) -> (result: Result<
    Vec<Glyph>,
    StepError,
>)
    requires
        brep.wf(),
        all_sheets_fit(brep@, key_order(brep@.solids.dom()), sheets@),
    ensures
        result is Ok,
        result->Ok_0@ == file(
            "cadcore B-Rep assembly export"@,
            Protocol::Ap214,
            assembly_state(brep@, key_order(brep@.solids.dom()), sheets@),
        ),
        assembly_state(brep@, key_order(brep@.solids.dom()), sheets@).counter <= usize::MAX,
{
    let ghost model = brep@;
    let mut ctx = Ctx::new();
    let assembly = emit_assembly_head(&mut ctx);
    let writer = StepWriter::new(brep);
    let ids = brep.solids.keys();
    let mut k: usize = 0;
    while k < ids.len()
        invariant
            k <= ids@.len(),
            brep.wf(),
            writer.wf(),
            model == brep@,
            writer.model() == model,
            assembly == assembly_ids(),
            all_sheets_fit(model, ids@, sheets@),
            ctx.wf(),
            ctx@ == components_emitted(
                assembly_head(),
                model,
                ids@,
                sheets@,
                assembly,
                k as int,
            ),
        decreases ids@.len() - k,
    {
        assert(sheets_fit(model, ids@[k as int], sheets@[k as int]@));
        if let Some(solid) = brep.solids.get(ids[k]) {
            let faces = writer.emit_advanced_faces(&mut ctx, ids[k], &sheets[k]);
            if faces.len() > 0 {
                emit_component(&mut ctx, &faces, solid, k, assembly);
            }
        }
        k = k + 1;
    }
    Ok(write_file("cadcore B-Rep assembly export", Protocol::Ap214, &ctx))
}

} // verus!
