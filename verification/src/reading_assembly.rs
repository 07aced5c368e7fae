//! What a file of an assembly, and the text of any file, says to whoever reads
//! it.

use vstd::prelude::*;

use crate::bounds::FaceSheet;
use crate::brep::Model;
use crate::ids::SolidId;
use crate::reading::{
    also, done, lemma_done_step, lemma_placement_text, lemma_spelled, named, placement_text,
    reference, says, spelled, Arg,
};
use crate::reading_bounds::counted;
use crate::reading_files::{
    are_faces, goes_by, law_solids_read_back, lemma_faces_stay, lemma_solid_counter,
};
use crate::reading_parts::{
    is_context, is_in_place, is_labelled_part, is_shaped, law_components_read_back,
    law_contexts_read_back, law_links_read_back, law_product_shapes_read_back, lemma_product_end,
    lemma_representation_end, lemma_says_stays, lemma_stay_chain, link_text, product_text,
    representation_text,
};
use crate::script::{characters, decimal, Glyph, Script};
use crate::step::{entity_line, StepState};
use crate::step_laws::lines_stay;
use crate::writer::{
    application_text, assembly_head, assembly_ids, assembly_state, components_emitted,
    definition_text, solid_emitted, AssemblyIds, Protocol,
};

verus! {

/// The line of an entity: its number after a `#`, what it says after an equals
/// sign, and a semicolon.
pub proof fn law_entities_have_a_line(id: nat, body: Script)
    ensures
        entity_line(id, body) == ((reference(id as int) + spelled(" = "@)) + body.glyphs) + spelled(
            ";\n"@,
        ),
{
    lemma_spelled("#"@);
    lemma_spelled(decimal(id));
    lemma_spelled(" = "@);
    lemma_spelled(";\n"@);
    assert(entity_line(id, body) =~= ((reference(id as int) + spelled(" = "@)) + body.glyphs)
        + spelled(";\n"@));
}

/// A product context as it is written.
pub open spec fn product_context_text(application: int) -> Seq<Glyph> {
    done(
        also(
            also(named("PRODUCT_CONTEXT"@, ""@), Arg::Ref(application)),
            Arg::Text("mechanical"@),
        ),
    )
}

/// A file starts with its application, the definition of its protocol, which is
/// of that application, and a product context in it.
pub proof fn law_applications_read_back(protocol: Protocol)
    ensures
        ({
            let t = StepState::start().application(protocol);
            &&& counted(t)
            &&& t.counter == 3
            &&& says(t.lines, 1, spelled(application_text(protocol)))
            &&& says(t.lines, 2, done(spelled(definition_text(protocol)) + spelled(decimal(1))))
            &&& says(t.lines, 3, product_context_text(1))
            &&& protocol is Ap203 ==> says(
                t.lines,
                1,
                spelled(
                    "APPLICATION_CONTEXT('configuration controlled 3d designs of mechanical parts and assemblies')"@,
                ),
            )
            &&& protocol is Ap214 ==> says(
                t.lines,
                1,
                spelled(
                    "APPLICATION_CONTEXT('core data for automotive mechanical design processes')"@,
                ),
            )
        }),
{
    reveal(StepState::application);
    let t = StepState::start().application(protocol);
    lemma_spelled(application_text(protocol));
    lemma_spelled(definition_text(protocol));
    lemma_spelled(decimal(1));
    let b1 = Script::empty().text(application_text(protocol));
    assert(b1.glyphs =~= spelled(application_text(protocol)));
    let b2 = Script::empty().text(definition_text(protocol)).whole(1);
    assert(b2.glyphs =~= spelled(definition_text(protocol)) + spelled(decimal(1)));
    lemma_done_step(b2);
    let x = "PRODUCT_CONTEXT('',#"@;
    reveal_strlit("PRODUCT_CONTEXT('',#");
    reveal_strlit("PRODUCT_CONTEXT");
    reveal_strlit(",'mechanical')");
    reveal_strlit("mechanical");
    reveal_strlit("('");
    reveal_strlit("");
    reveal_strlit("'");
    reveal_strlit(",");
    reveal_strlit("#");
    reveal_strlit(")");
    lemma_spelled(x);
    lemma_spelled(",'mechanical')"@);
    let b3 = Script::empty().text(x).whole(1).text(",'mechanical')"@);
    let g = named("PRODUCT_CONTEXT"@, ""@);
    assert(spelled(x) =~= (g + spelled(","@)) + spelled("#"@));
    assert(spelled(",'mechanical')"@) =~= (spelled(","@) + ((spelled("'"@) + spelled(
        "mechanical"@,
    )) + spelled("'"@))) + spelled(")"@));
    assert(b3.glyphs =~= product_context_text(1));
    assert(t.lines[0] == b1);
    assert(t.lines[1] == b2.text(")"@));
    assert(t.lines[2] == b3);
}

/// Whether the head of an assembly is there: its geometric context, an origin
/// with the axes z and x, a product with its shape, and the representation of
/// that by the placement at the origin; and whether the ids name these.
pub open spec fn is_assembly_head(lines: Seq<Script>, ids: AssemblyIds) -> bool {
    &&& ids.context == 3
    &&& is_context(lines, ids.geometry as int)
    &&& says(lines, ids.origin as int, spelled("CARTESIAN_POINT('',(0.0,0.0,0.0))"@))
    &&& says(lines, ids.z as int, spelled("DIRECTION('',(0.0,0.0,1.0))"@))
    &&& says(lines, ids.x as int, spelled("DIRECTION('',(1.0,0.0,0.0))"@))
    &&& says(lines, 12, placement_text(""@, ids.origin as int, ids.z as int, ids.x as int))
    &&& says(lines, 13, product_text("scaffold_assembly"@, "scaffold_assembly"@, ids.context))
    &&& is_shaped(lines, 13, ids.context as int)
    &&& ids.definition == 15
    &&& says(
        lines,
        ids.representation as int,
        representation_text("scaffold_assembly"@, 12, ids.geometry as int),
    )
    &&& says(lines, ids.representation + 1, link_text(16, ids.representation as int))
}

proof fn lemma_one_text(x: Seq<char>)
    ensures
        Script::empty().text(x).glyphs == spelled(x),
{
    lemma_spelled(x);
    assert(Script::empty().text(x).glyphs =~= spelled(x));
}

proof fn lemma_assembly_product(context: usize)
    ensures
        Script::empty().text("PRODUCT('scaffold_assembly','scaffold_assembly','',(#"@).whole(
            context as nat,
        ).text("))"@).glyphs == product_text(
            "scaffold_assembly"@,
            "scaffold_assembly"@,
            context,
        ),
{
    let x = "PRODUCT('scaffold_assembly','scaffold_assembly"@;
    let all = "PRODUCT('scaffold_assembly','scaffold_assembly','',(#"@;
    let g = Script::empty().text(x);
    reveal_strlit("PRODUCT('scaffold_assembly','scaffold_assembly");
    reveal_strlit("PRODUCT('scaffold_assembly','scaffold_assembly','',(#");
    reveal_strlit("','',(#");
    reveal_strlit("scaffold_assembly");
    reveal_strlit("PRODUCT");
    reveal_strlit("('");
    reveal_strlit("'");
    reveal_strlit(",");
    lemma_spelled(x);
    lemma_spelled(all);
    lemma_spelled("','',(#"@);
    assert(spelled(all) =~= spelled(x) + spelled("','',(#"@));
    assert(Script::empty().text(all).glyphs =~= g.text("','',(#"@).glyphs);
    assert(g.glyphs + spelled("'"@) =~= also(
        named("PRODUCT"@, "scaffold_assembly"@),
        Arg::Text("scaffold_assembly"@),
    ));
    lemma_product_end(g, context);
}

proof fn lemma_assembly_representation(item: usize, geometry: nat)
    ensures
        Script::empty().text("SHAPE_REPRESENTATION('scaffold_assembly',(#"@).whole(
            item as nat,
        ).text("),#"@).whole(geometry).text(")"@).glyphs == representation_text(
            "scaffold_assembly"@,
            item,
            geometry as int,
        ),
{
    let x = "SHAPE_REPRESENTATION('scaffold_assembly"@;
    let all = "SHAPE_REPRESENTATION('scaffold_assembly',(#"@;
    let g = Script::empty().text(x);
    reveal_strlit("SHAPE_REPRESENTATION('scaffold_assembly");
    reveal_strlit("SHAPE_REPRESENTATION('scaffold_assembly',(#");
    reveal_strlit("SHAPE_REPRESENTATION");
    reveal_strlit("scaffold_assembly");
    reveal_strlit("',(#");
    reveal_strlit("('");
    lemma_spelled(x);
    lemma_spelled(all);
    lemma_spelled("',(#"@);
    assert(spelled(all) =~= spelled(x) + spelled("',(#"@));
    assert(Script::empty().text(all).glyphs =~= g.text("',(#"@).glyphs);
    assert(g.glyphs + spelled("'"@) =~= named("SHAPE_REPRESENTATION"@, "scaffold_assembly"@));
    lemma_representation_end(g, item, geometry);
}

/// The head of an assembly reads back, and what components refer to is what they
/// should.
#[verifier::spinoff_prover]
pub proof fn law_assembly_heads_read_back()
    ensures
        counted(assembly_head()),
        assembly_head().counter == 18,
        is_assembly_head(assembly_head().lines, assembly_ids()),
{
    let s1 = StepState::start().application(Protocol::Ap214);
    law_applications_read_back(Protocol::Ap214);
    let s2 = s1.geometric_context();
    let s3 = s2.units();
    law_contexts_read_back(s1);
    let p = Script::empty().text("CARTESIAN_POINT('',(0.0,0.0,0.0))"@);
    let z = Script::empty().text("DIRECTION('',(0.0,0.0,1.0))"@);
    let x = Script::empty().text("DIRECTION('',(1.0,0.0,0.0))"@);
    lemma_one_text("CARTESIAN_POINT('',(0.0,0.0,0.0))"@);
    lemma_one_text("DIRECTION('',(0.0,0.0,1.0))"@);
    lemma_one_text("DIRECTION('',(1.0,0.0,0.0))"@);
    let s4 = s3.put(p);
    let s5 = s4.put(z);
    let s6 = s5.put(x);
    let s7 = s6.placement(""@, s4.counter, s5.counter, s6.counter);
    lemma_placement_text(s6, ""@, s4.counter, s5.counter, s6.counter);
    let b = Script::empty().text("PRODUCT('scaffold_assembly','scaffold_assembly','',(#"@).whole(
        s1.counter,
    ).text("))"@);
    lemma_assembly_product(3);
    let sp = s7.put(b);
    let s8 = sp.product_shape(s1.counter);
    law_product_shapes_read_back(sp, s1.counter);
    let r = Script::empty().text("SHAPE_REPRESENTATION('scaffold_assembly',(#"@).whole(
        s7.counter,
    ).text("),#"@).whole(s2.counter).text(")"@);
    lemma_assembly_representation(12, 4);
    let s9 = s8.put(r);
    let t = s9.shape_link(s8.counter, s9.counter);
    law_links_read_back(s9, s8.counter, s9.counter);
    assert(t == assembly_head());
    assert(s3.counter == 8);
    assert(sp.lines == s3.lines.push(p).push(z).push(x).push(s7.lines.last()).push(b));
    assert(sp.lines[8] == p && sp.lines[9] == z && sp.lines[10] == x && sp.lines[12] == b);
    assert(sp.lines[11] == s7.lines.last());
    assert(lines_stay(s3, sp));
    assert(lines_stay(s8, s9));
    lemma_stay_chain(s8, s9, t);
    lemma_stay_chain(sp, s8, t);
    lemma_stay_chain(s3, sp, t);
    lemma_says_stays(s3, t);
    lemma_says_stays(sp, t);
    lemma_says_stays(s8, t);
    lemma_says_stays(s9, t);
    assert(says(sp.lines, 9, spelled("CARTESIAN_POINT('',(0.0,0.0,0.0))"@)));
    assert(says(sp.lines, 10, spelled("DIRECTION('',(0.0,0.0,1.0))"@)));
    assert(says(sp.lines, 11, spelled("DIRECTION('',(1.0,0.0,0.0))"@)));
    assert(says(sp.lines, 12, placement_text(""@, 9, 10, 11)));
    assert(says(sp.lines, 13, product_text("scaffold_assembly"@, "scaffold_assembly"@, 3)));
    assert(says(s9.lines, 17, representation_text("scaffold_assembly"@, 12, 4)));
    assert(is_context(s3.lines, 4));
}

/// Whether entities from `id` on are a component of an assembly, made of the
/// faces of a solid.
pub open spec fn is_component(
    lines: Seq<Script>,
    id: int,
    model: Model,
    solid: SolidId,
    place: nat,
    assembly: AssemblyIds,
) -> bool {
    let label = goes_by(model.solids[solid], "part"@, place);
    &&& is_in_place(lines, id, label, place, assembly)
    &&& exists|faces: Seq<usize>| #[trigger]
        is_labelled_part(
            lines,
            id,
            faces,
            label,
            assembly.context,
            assembly.geometry as int,
        ) && are_faces(lines, faces, model, solid)
}

proof fn lemma_component_stays(
    s: StepState,
    t: StepState,
    id: int,
    model: Model,
    solid: SolidId,
    place: nat,
    assembly: AssemblyIds,
)
    requires
        lines_stay(s, t),
        is_component(s.lines, id, model, solid, place, assembly),
    ensures
        is_component(t.lines, id, model, solid, place, assembly),
{
    lemma_says_stays(s, t);
    let label = goes_by(model.solids[solid], "part"@, place);
    let faces = choose|faces: Seq<usize>| #[trigger]
        is_labelled_part(
            s.lines,
            id,
            faces,
            label,
            assembly.context,
            assembly.geometry as int,
        ) && are_faces(s.lines, faces, model, solid);
    lemma_faces_stay(s, t, faces, model, solid);
    assert(is_labelled_part(
        t.lines,
        id,
        faces,
        label,
        assembly.context,
        assembly.geometry as int,
    ));
}

proof fn lemma_components(
    state: StepState,
    model: Model,
    ids: Seq<SolidId>,
    sheets: Seq<Vec<FaceSheet>>,
    assembly: AssemblyIds,
    k: int,
)
    requires
        counted(state),
        0 <= k <= ids.len(),
        components_emitted(state, model, ids, sheets, assembly, k).counter + 14 <= usize::MAX,
    ensures
        ({
            let t = components_emitted(state, model, ids, sheets, assembly, k);
            &&& counted(t)
            &&& lines_stay(state, t)
            &&& forall|j: int|
                0 <= j < k && model.solids.dom().contains(#[trigger] ids[j])
                    && crate::cut::visited(model, ids[j]).len() > 0 ==> exists|id: int| #[trigger]
                    is_component(t.lines, id, model, ids[j], j as nat, assembly)
        }),
    decreases k,
{
    if k > 0 {
        let was = components_emitted(state, model, ids, sheets, assembly, k - 1);
        let t = components_emitted(state, model, ids, sheets, assembly, k);
        let solid = ids[k - 1];
        let faces = solid_emitted(was, model, solid, sheets[k - 1]@);
        lemma_solid_counter(was, model, solid, sheets[k - 1]@);
        if model.solids.dom().contains(solid) {
            assert(faces.state.counter <= t.counter) by {
                reveal(StepState::component);
                reveal(StepState::part);
                reveal(StepState::manifold);
                reveal(StepState::product_shape);
            }
            lemma_components(state, model, ids, sheets, assembly, k - 1);
            law_solids_read_back(was, model, solid, sheets[k - 1]@);
            if faces.ids.len() > 0 {
                law_components_read_back(
                    faces.state,
                    faces.ids,
                    model.solids[solid],
                    (k - 1) as nat,
                    assembly,
                );
                lemma_faces_stay(faces.state, t, faces.ids, model, solid);
                lemma_stay_chain(was, faces.state, t);
                let id = faces.state.counter as int + 1;
                let label = goes_by(model.solids[solid], "part"@, (k - 1) as nat);
                assert(is_labelled_part(
                    t.lines,
                    id,
                    faces.ids,
                    label,
                    assembly.context,
                    assembly.geometry as int,
                ));
                assert(is_component(t.lines, id, model, solid, (k - 1) as nat, assembly));
            }
            lemma_stay_chain(state, was, t);
        } else {
            lemma_components(state, model, ids, sheets, assembly, k - 1);
        }
        assert forall|j: int|
            0 <= j < k && model.solids.dom().contains(#[trigger] ids[j]) && crate::cut::visited(
                model,
                ids[j],
            ).len() > 0 implies exists|id: int| #[trigger]
            is_component(t.lines, id, model, ids[j], j as nat, assembly) by {
            if j < k - 1 {
                let id = choose|id: int| #[trigger]
                    is_component(was.lines, id, model, ids[j], j as nat, assembly);
                lemma_component_stays(was, t, id, model, ids[j], j as nat, assembly);
            }
        }
    }
}

/// Whoever reads the file of an assembly finds its head, and every solid that has
/// faces, with each of these on its surface, as a component of it.
pub proof fn law_assembly_files_read_back(
    model: Model,
    ids: Seq<SolidId>,
    sheets: Seq<Vec<FaceSheet>>,
    j: int,
)
    requires
        assembly_state(model, ids, sheets).counter + 14 <= usize::MAX,
        0 <= j < ids.len(),
        model.solids.dom().contains(ids[j]),
        crate::cut::visited(model, ids[j]).len() > 0,
    ensures
        is_assembly_head(assembly_state(model, ids, sheets).lines, assembly_ids()),
        exists|id: int| #[trigger]
            is_component(
                assembly_state(model, ids, sheets).lines,
                id,
                model,
                ids[j],
                j as nat,
                assembly_ids(),
            ),
{
    law_assembly_heads_read_back();
    lemma_components(assembly_head(), model, ids, sheets, assembly_ids(), ids.len() as int);
    lemma_says_stays(assembly_head(), assembly_state(model, ids, sheets));
    let t = assembly_state(model, ids, sheets);
    assert(model.solids.dom().contains(ids[j]));
}

} // verus!
