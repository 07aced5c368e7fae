//! What a file says of its products to whoever reads it: which solid is the shape
//! of which product, and where the components of an assembly are.

use vstd::prelude::*;

use crate::bounds::{Emitted, FaceSheet};
use crate::brep::Model;
use crate::entities::Solid;
use crate::ids::SolidId;
use crate::reading::{
    also, done, lemma_done_step, lemma_placement_text, lemma_ref_step, lemma_spelled, named,
    placement_text, reference, reference_list, says, spelled, unnamed, written, Arg,
};
use crate::reading_bounds::counted;
use crate::reading_files::{
    goes_by, is_solid, law_shells_read_back, lemma_solid_stays, lemma_solids_counter, shell_text,
    solid_text,
};
use crate::script::{characters, decimal, Glyph, Script};
use crate::step::StepState;
use crate::step_laws::lines_stay;
use crate::writer::{
    label, label_text, part_shape_body, part_state, product_body, products_emitted,
    shapes_emitted, solid_base, solids_emitted, solids_named, AssemblyIds, Protocol,
};

verus! {

/// A product as it is written: its id, its name, no description, and its context.
pub open spec fn product_text(id: Seq<char>, name: Seq<char>, context: usize) -> Seq<Glyph> {
    done(
        also(
            also(also(named("PRODUCT"@, id), Arg::Text(name)), Arg::Text(""@)),
            Arg::Refs(seq![context]),
        ),
    )
}

/// A formation of a product as it is written.
pub open spec fn formation_text(product: int) -> Seq<Glyph> {
    done(
        also(also(named("PRODUCT_DEFINITION_FORMATION"@, ""@), Arg::Text(""@)), Arg::Ref(product)),
    )
}

/// A definition of a product as it is written: its formation, then its context.
pub open spec fn definition_text(formation: int, context: int) -> Seq<Glyph> {
    done(
        also(
            also(
                also(named("PRODUCT_DEFINITION"@, "design"@), Arg::Text(""@)),
                Arg::Ref(formation),
            ),
            Arg::Ref(context),
        ),
    )
}

/// The shape of a definition as it is written.
pub open spec fn shape_text(definition: int) -> Seq<Glyph> {
    done(
        also(also(named("PRODUCT_DEFINITION_SHAPE"@, ""@), Arg::Text(""@)), Arg::Ref(definition)),
    )
}

/// A representation of a shape as it is written: what it is made of, then the
/// geometric context.
pub open spec fn representation_text(
    label: Seq<char>,
    item: usize,
    geometry: int,
) -> Seq<Glyph> {
    done(
        also(
            also(named("SHAPE_REPRESENTATION"@, label), Arg::Refs(seq![item])),
            Arg::Ref(geometry),
        ),
    )
}

/// The link from a shape to what represents it as it is written.
pub open spec fn link_text(shape: int, representation: int) -> Seq<Glyph> {
    done(
        also(
            unnamed("SHAPE_DEFINITION_REPRESENTATION"@, Arg::Ref(shape)),
            Arg::Ref(representation),
        ),
    )
}

/// One thing after another.
pub proof fn lemma_stay_chain(s: StepState, t: StepState, u: StepState)
    requires
        lines_stay(s, t),
        lines_stay(t, u),
    ensures
        lines_stay(s, u),
{
    assert forall|i: int| 0 <= i < s.lines.len() implies #[trigger] u.lines[i] == s.lines[i] by {
        assert(t.lines[i] == s.lines[i]);
    }
}

/// What is said stays said.
pub proof fn lemma_says_stays(s: StepState, t: StepState)
    requires
        lines_stay(s, t),
    ensures
        forall|id: int, text: Seq<Glyph>| #[trigger]
            says(s.lines, id, text) ==> says(t.lines, id, text),
{
    assert forall|id: int, text: Seq<Glyph>| #[trigger] says(s.lines, id, text) implies says(
        t.lines,
        id,
        text,
    ) by {
        assert(t.lines[id - 1] == s.lines[id - 1]);
    }
}

/// A product with a label: the label is its id and its name.
pub proof fn lemma_product_end(g: Script, context: usize)
    ensures
        g.text("','',(#"@).whole(context as nat).text("))"@).glyphs == done(
            also(also(g.glyphs + spelled("'"@), Arg::Text(""@)), Arg::Refs(seq![context])),
        ),
{
    reveal_strlit("','',(#");
    reveal_strlit("");
    reveal_strlit("'");
    reveal_strlit(",");
    reveal_strlit("(");
    reveal_strlit(")");
    reveal_strlit("#");
    reveal_strlit("))");
    lemma_spelled("','',(#"@);
    lemma_spelled("))"@);
    lemma_spelled(decimal(context as nat));
    assert(reference_list(seq![context]) == reference(context as int));
    assert(spelled("))"@) =~= spelled(")"@) + spelled(")"@));
    let front = also(g.glyphs + spelled("'"@), Arg::Text(""@));
    assert(g.text("','',(#"@).glyphs =~= ((front + spelled(","@)) + spelled("("@)) + spelled(
        "#"@,
    ));
    assert(g.text("','',(#"@).whole(context as nat).text("))"@).glyphs =~= done(
        also(front, Arg::Refs(seq![context])),
    ));
}

/// What the product of part `place` goes by.
pub open spec fn part_id(place: nat) -> Seq<char> {
    if place == 0 {
        "cadcore_part"@
    } else {
        "cadcore_part_"@ + decimal(place)
    }
}

/// What the product of part `place` is called.
pub open spec fn part_name(place: nat) -> Seq<char> {
    if place == 0 {
        "cadcore part"@
    } else {
        "cadcore part "@ + decimal(place)
    }
}

proof fn lemma_product_body(place: nat, context: usize)
    ensures
        product_body(place, context as nat).glyphs == product_text(
            part_id(place),
            part_name(place),
            context,
        ),
{
    reveal_strlit("PRODUCT");
    reveal_strlit("('");
    reveal_strlit("'");
    reveal_strlit(",");
    let front = also(named("PRODUCT"@, part_id(place)), Arg::Text(part_name(place)));
    if place == 0 {
        let x = "PRODUCT('cadcore_part','cadcore part"@;
        let all = "PRODUCT('cadcore_part','cadcore part','',(#"@;
        let g = Script::empty().text(x);
        reveal_strlit("PRODUCT('cadcore_part','cadcore part");
        reveal_strlit("PRODUCT('cadcore_part','cadcore part','',(#");
        reveal_strlit("','',(#");
        reveal_strlit("cadcore_part");
        reveal_strlit("cadcore part");
        lemma_spelled(x);
        lemma_spelled(all);
        lemma_spelled("','',(#"@);
        assert(all =~= x + "','',(#"@);
        assert(spelled(all) =~= spelled(x) + spelled("','',(#"@));
        assert(Script::empty().text(all).glyphs =~= g.text("','',(#"@).glyphs);
        assert(g.glyphs + spelled("'"@) =~= front);
        lemma_product_end(g, context);
    } else {
        let d = decimal(place);
        let g = Script::empty().text("PRODUCT('cadcore_part_"@).whole(place).text(
            "','cadcore part "@,
        ).whole(place);
        reveal_strlit("PRODUCT('cadcore_part_");
        reveal_strlit("','cadcore part ");
        reveal_strlit("cadcore_part_");
        reveal_strlit("cadcore part ");
        lemma_spelled("PRODUCT('cadcore_part_"@);
        lemma_spelled("','cadcore part "@);
        lemma_spelled(d);
        assert(spelled("PRODUCT('cadcore_part_"@) =~= (spelled("PRODUCT"@) + spelled("('"@))
            + spelled("cadcore_part_"@));
        assert(spelled("','cadcore part "@) =~= ((spelled("'"@) + spelled(","@)) + spelled("'"@))
            + spelled("cadcore part "@));
        assert(spelled(part_id(place)) =~= spelled("cadcore_part_"@) + spelled(d));
        assert(spelled(part_name(place)) =~= spelled("cadcore part "@) + spelled(d));
        assert(g.glyphs + spelled("'"@) =~= front);
        lemma_product_end(g, context);
    }
}

/// Whether entities from `id` on are a product's formation, definition and shape,
/// each of the one before it.
pub open spec fn is_shaped(lines: Seq<Script>, product: int, context: int) -> bool {
    &&& says(lines, product + 1, formation_text(product))
    &&& says(lines, product + 2, definition_text(product + 1, context))
    &&& says(lines, product + 3, shape_text(product + 2))
}

/// A product's shape reads back: it is of the definition, of the formation, of
/// the product.
pub proof fn law_product_shapes_read_back(s: StepState, context: nat)
    requires
        counted(s),
    ensures
        ({
            let t = s.product_shape(context);
            &&& counted(t)
            &&& lines_stay(s, t)
            &&& t.counter == s.counter + 3
            &&& is_shaped(t.lines, s.counter as int, context as int)
        }),
{
    reveal(StepState::product_shape);
    let p = s.counter;
    let f = (p + 1) as nat;
    let d = (p + 2) as nat;
    reveal_strlit("");
    reveal_strlit("'");
    reveal_strlit("('");
    reveal_strlit(",");
    reveal_strlit("#");
    reveal_strlit("design");
    reveal_strlit("PRODUCT_DEFINITION_FORMATION");
    reveal_strlit("PRODUCT_DEFINITION_FORMATION('','',#");
    reveal_strlit("PRODUCT_DEFINITION");
    reveal_strlit("PRODUCT_DEFINITION('design','',#");
    reveal_strlit("PRODUCT_DEFINITION_SHAPE");
    reveal_strlit("PRODUCT_DEFINITION_SHAPE('','',#");
    lemma_spelled("PRODUCT_DEFINITION_FORMATION('','',#"@);
    lemma_spelled("PRODUCT_DEFINITION('design','',#"@);
    lemma_spelled("PRODUCT_DEFINITION_SHAPE('','',#"@);
    lemma_spelled(decimal(p));
    lemma_spelled(decimal(f));
    lemma_spelled(decimal(d));
    let g1 = also(named("PRODUCT_DEFINITION_FORMATION"@, ""@), Arg::Text(""@));
    let g2 = also(named("PRODUCT_DEFINITION"@, "design"@), Arg::Text(""@));
    let g3 = also(named("PRODUCT_DEFINITION_SHAPE"@, ""@), Arg::Text(""@));
    assert(spelled("PRODUCT_DEFINITION_FORMATION('','',#"@) =~= (g1 + spelled(","@)) + spelled(
        "#"@,
    ));
    assert(spelled("PRODUCT_DEFINITION('design','',#"@) =~= (g2 + spelled(","@)) + spelled("#"@));
    assert(spelled("PRODUCT_DEFINITION_SHAPE('','',#"@) =~= (g3 + spelled(","@)) + spelled("#"@));
    let b1 = Script::empty().text("PRODUCT_DEFINITION_FORMATION('','',#"@).whole(p);
    let b2 = Script::empty().text("PRODUCT_DEFINITION('design','',#"@).whole(f);
    let b3 = Script::empty().text("PRODUCT_DEFINITION_SHAPE('','',#"@).whole(d);
    assert(b1.glyphs =~= also(g1, Arg::Ref(p as int)));
    assert(b2.glyphs =~= also(g2, Arg::Ref(f as int)));
    assert(b3.glyphs =~= also(g3, Arg::Ref(d as int)));
    lemma_ref_step(b2, context);
    lemma_done_step(b1);
    lemma_done_step(b2.text(",#"@).whole(context));
    lemma_done_step(b3);
    let t = s.product_shape(context);
    let n = p as int;
    assert(t.lines[n] == b1.text(")"@));
    assert(t.lines[n + 1] == b2.text(",#"@).whole(context).text(")"@));
    assert(t.lines[n + 2] == b3.text(")"@));
}

/// Whether entity `id` is the product of part `place`, with its shape.
pub open spec fn is_part_product(lines: Seq<Script>, id: int, place: nat, context: usize) -> bool {
    &&& says(lines, id, product_text(part_id(place), part_name(place), context))
    &&& is_shaped(lines, id, context as int)
}

proof fn lemma_products(s: StepState, context: usize, k: nat)
    requires
        counted(s),
    ensures
        ({
            let t = products_emitted(s, context as nat, k);
            &&& counted(t)
            &&& lines_stay(s, t)
            &&& t.counter == s.counter + 4 * k
            &&& forall|j: int|
                0 <= j < k ==> #[trigger] is_part_product(
                    t.lines,
                    s.counter + 4 * j + 1,
                    j as nat,
                    context,
                )
        }),
    decreases k,
{
    if k > 0 {
        let j = (k - 1) as nat;
        let was = products_emitted(s, context as nat, j);
        let mid = was.put(product_body(j, context as nat));
        let t = products_emitted(s, context as nat, k);
        lemma_products(s, context, j);
        lemma_product_body(j, context);
        law_product_shapes_read_back(mid, context as nat);
        assert(lines_stay(was, mid));
        lemma_stay_chain(was, mid, t);
        lemma_stay_chain(s, was, t);
        assert(mid.lines[was.counter as int].glyphs == product_text(
            part_id(j),
            part_name(j),
            context,
        ));
        lemma_says_stays(mid, t);
        assert(says(
            mid.lines,
            mid.counter as int,
            product_text(part_id(j), part_name(j), context),
        ));
        assert(is_part_product(t.lines, s.counter as int + 4 * j + 1, j, context));
        lemma_says_stays(was, t);
        assert forall|i: int| 0 <= i < k implies #[trigger] is_part_product(
            t.lines,
            s.counter + 4 * i + 1,
            i as nat,
            context,
        ) by {
            if i < j {
                assert(is_part_product(was.lines, s.counter + 4 * i + 1, i as nat, context));
            }
        }
    }
}

/// A link reads back: the shape, then what represents it.
pub proof fn law_links_read_back(s: StepState, shape: nat, representation: nat)
    requires
        counted(s),
    ensures
        ({
            let t = s.shape_link(shape, representation);
            &&& counted(t)
            &&& lines_stay(s, t)
            &&& t.counter == s.counter + 1
            &&& says(t.lines, t.counter as int, link_text(shape as int, representation as int))
        }),
{
    let b = Script::empty().text("SHAPE_DEFINITION_REPRESENTATION(#"@).whole(shape);
    reveal_strlit("SHAPE_DEFINITION_REPRESENTATION(#");
    reveal_strlit("SHAPE_DEFINITION_REPRESENTATION");
    reveal_strlit("(");
    reveal_strlit("#");
    lemma_spelled("SHAPE_DEFINITION_REPRESENTATION(#"@);
    lemma_spelled(decimal(shape));
    assert(spelled("SHAPE_DEFINITION_REPRESENTATION(#"@) =~= (spelled(
        "SHAPE_DEFINITION_REPRESENTATION"@,
    ) + spelled("("@)) + spelled("#"@));
    assert(b.glyphs =~= unnamed("SHAPE_DEFINITION_REPRESENTATION"@, Arg::Ref(shape as int)));
    lemma_ref_step(b, representation);
    lemma_done_step(b.text(",#"@).whole(representation));
}

/// A representation after its label.
pub proof fn lemma_representation_end(g: Script, item: usize, geometry: nat)
    ensures
        g.text("',(#"@).whole(item as nat).text("),#"@).whole(geometry).text(")"@).glyphs == done(
            also(also(g.glyphs + spelled("'"@), Arg::Refs(seq![item])), Arg::Ref(geometry as int)),
        ),
{
    reveal_strlit("',(#");
    reveal_strlit("'");
    reveal_strlit(",");
    reveal_strlit("(");
    reveal_strlit(")");
    reveal_strlit("#");
    reveal_strlit("),#");
    lemma_spelled("',(#"@);
    lemma_spelled("),#"@);
    lemma_spelled(decimal(item as nat));
    lemma_spelled(decimal(geometry));
    assert(reference_list(seq![item]) == reference(item as int));
    assert(spelled("',(#"@) =~= ((spelled("'"@) + spelled(","@)) + spelled("("@)) + spelled("#"@));
    assert(spelled("),#"@) =~= (spelled(")"@) + spelled(","@)) + spelled("#"@));
    let b1 = g.text("',(#"@).whole(item as nat);
    let front = also(g.glyphs + spelled("'"@), Arg::Refs(seq![item]));
    assert(b1.glyphs + spelled(")"@) =~= front);
    let b2 = b1.text("),#"@).whole(geometry);
    assert(b2.glyphs =~= also(front, Arg::Ref(geometry as int)));
    lemma_done_step(b2);
}

proof fn lemma_part_shape(item: usize, geometry: nat)
    ensures
        part_shape_body(item as nat, geometry).glyphs == representation_text(
            ""@,
            item,
            geometry as int,
        ),
{
    let x = "SHAPE_REPRESENTATION('"@;
    let g = Script::empty().text(x);
    reveal_strlit("SHAPE_REPRESENTATION('");
    reveal_strlit("SHAPE_REPRESENTATION('',(#");
    reveal_strlit("SHAPE_REPRESENTATION");
    reveal_strlit("',(#");
    reveal_strlit("('");
    reveal_strlit("");
    lemma_spelled(x);
    lemma_spelled("SHAPE_REPRESENTATION('',(#"@);
    lemma_spelled("',(#"@);
    assert(spelled("SHAPE_REPRESENTATION('',(#"@) =~= spelled(x) + spelled("',(#"@));
    assert(Script::empty().text("SHAPE_REPRESENTATION('',(#"@).glyphs =~= g.text("',(#"@).glyphs);
    assert(g.glyphs + spelled("'"@) =~= named("SHAPE_REPRESENTATION"@, ""@));
    lemma_representation_end(g, item, geometry);
}

/// Whether entities `id` and `id + 1` say that a solid represents a shape.
pub open spec fn represents(
    lines: Seq<Script>,
    id: int,
    item: usize,
    shape: int,
    geometry: int,
) -> bool {
    &&& says(lines, id, representation_text(""@, item, geometry))
    &&& says(lines, id + 1, link_text(shape, id))
}

proof fn lemma_shapes(s: StepState, items: Seq<usize>, base: nat, geometry: nat, k: nat)
    requires
        counted(s),
    ensures
        ({
            let t = shapes_emitted(s, items, base, geometry, k);
            &&& counted(t)
            &&& lines_stay(s, t)
            &&& t.counter == s.counter + 2 * k
            &&& forall|j: int|
                0 <= j < k ==> #[trigger] represents(
                    t.lines,
                    s.counter + 2 * j + 1,
                    items[j],
                    base + 4 * j + 4,
                    geometry as int,
                )
        }),
    decreases k,
{
    if k > 0 {
        let j = (k - 1) as nat;
        let was = shapes_emitted(s, items, base, geometry, j);
        let item = items[j as int];
        let mid = was.put(part_shape_body(item as nat, geometry));
        let t = shapes_emitted(s, items, base, geometry, k);
        lemma_shapes(s, items, base, geometry, j);
        lemma_part_shape(item, geometry);
        law_links_read_back(mid, (base + 4 * k) as nat, mid.counter);
        assert(lines_stay(was, mid));
        lemma_stay_chain(was, mid, t);
        lemma_stay_chain(s, was, t);
        lemma_says_stays(mid, t);
        assert(says(
            mid.lines,
            mid.counter as int,
            representation_text(""@, item, geometry as int),
        ));
        assert(represents(
            t.lines,
            s.counter as int + 2 * j + 1,
            item,
            base as int + 4 * j + 4,
            geometry as int,
        ));
        lemma_says_stays(was, t);
        assert forall|i: int| 0 <= i < k implies #[trigger] represents(
            t.lines,
            s.counter + 2 * i + 1,
            items[i],
            base + 4 * i + 4,
            geometry as int,
        ) by {
            if i < j {
                assert(represents(
                    was.lines,
                    s.counter + 2 * i + 1,
                    items[i],
                    base + 4 * i + 4,
                    geometry as int,
                ));
            }
        }
    }
}

// ── Contexts and units ──────────────────────────────────────────────────────

/// The geometric context as it is written: three dimensions, an uncertainty, and
/// units of length, angle and solid angle.
pub open spec fn context_text(uncertainty: int, length: int, angle: int, solid: int) -> Seq<Glyph> {
    ((((spelled(
        "(GEOMETRIC_REPRESENTATION_CONTEXT(3) GLOBAL_UNCERTAINTY_ASSIGNED_CONTEXT(("@,
    ) + reference(uncertainty)) + spelled(")) GLOBAL_UNIT_ASSIGNED_CONTEXT(("@)) + (((((
    reference(length) + spelled(","@)) + reference(angle)) + spelled(","@)) + reference(solid))))
        + spelled(")) REPRESENTATION_CONTEXT('','3D'))"@))
}

/// Whether a geometric context stands at `id`, and right after it what it refers
/// to: an uncertainty of 1e-7 of the unit of length, millimetres, radians and
/// steradians.
pub open spec fn is_context(lines: Seq<Script>, id: int) -> bool {
    &&& says(lines, id, context_text(id + 1, id + 2, id + 3, id + 4))
    &&& says(
        lines,
        id + 1,
        (spelled("UNCERTAINTY_MEASURE_WITH_UNIT(LENGTH_MEASURE(1.0E-007),"@) + reference(id + 2))
            + spelled(",('',''))"@),
    )
    &&& says(lines, id + 2, spelled("(LENGTH_UNIT() NAMED_UNIT(*) SI_UNIT(.MILLI.,.METRE.))"@))
    &&& says(lines, id + 3, spelled("(NAMED_UNIT(*) PLANE_ANGLE_UNIT() SI_UNIT($,.RADIAN.))"@))
    &&& says(lines, id + 4, spelled("(NAMED_UNIT(*) SI_UNIT($,.STERADIAN.) SOLID_ANGLE_UNIT())"@))
}

/// A context is followed by the units that it refers to, with or without an empty
/// line between.
pub proof fn law_contexts_read_back(s: StepState)
    requires
        counted(s),
    ensures
        ({
            let t = s.geometric_context().units();
            &&& counted(t)
            &&& lines_stay(s, t)
            &&& t.counter == s.counter + 5
            &&& is_context(t.lines, s.counter as int + 1)
        }),
        ({
            let t = s.geometric_context().blank().units();
            &&& counted(t)
            &&& lines_stay(s, t)
            &&& t.counter == s.counter + 5
            &&& is_context(t.lines, s.counter as int + 1)
        }),
{
    reveal(StepState::units);
    let c = s.counter as int;
    let x = "(GEOMETRIC_REPRESENTATION_CONTEXT(3) GLOBAL_UNCERTAINTY_ASSIGNED_CONTEXT((#"@;
    let x0 = "(GEOMETRIC_REPRESENTATION_CONTEXT(3) GLOBAL_UNCERTAINTY_ASSIGNED_CONTEXT(("@;
    let y = ")) GLOBAL_UNIT_ASSIGNED_CONTEXT((#"@;
    let y0 = ")) GLOBAL_UNIT_ASSIGNED_CONTEXT(("@;
    let z = ")) REPRESENTATION_CONTEXT('','3D'))"@;
    let u = "UNCERTAINTY_MEASURE_WITH_UNIT(LENGTH_MEASURE(1.0E-007),#"@;
    let u0 = "UNCERTAINTY_MEASURE_WITH_UNIT(LENGTH_MEASURE(1.0E-007),"@;
    reveal_strlit("(GEOMETRIC_REPRESENTATION_CONTEXT(3) GLOBAL_UNCERTAINTY_ASSIGNED_CONTEXT((#");
    reveal_strlit("(GEOMETRIC_REPRESENTATION_CONTEXT(3) GLOBAL_UNCERTAINTY_ASSIGNED_CONTEXT((");
    reveal_strlit(")) GLOBAL_UNIT_ASSIGNED_CONTEXT((#");
    reveal_strlit(")) GLOBAL_UNIT_ASSIGNED_CONTEXT((");
    reveal_strlit("UNCERTAINTY_MEASURE_WITH_UNIT(LENGTH_MEASURE(1.0E-007),#");
    reveal_strlit("UNCERTAINTY_MEASURE_WITH_UNIT(LENGTH_MEASURE(1.0E-007),");
    reveal_strlit("#");
    reveal_strlit(",");
    reveal_strlit(",#");
    lemma_spelled(x);
    lemma_spelled(y);
    lemma_spelled(z);
    lemma_spelled(u);
    lemma_spelled(",#"@);
    lemma_spelled(",('',''))"@);
    lemma_spelled("(LENGTH_UNIT() NAMED_UNIT(*) SI_UNIT(.MILLI.,.METRE.))"@);
    lemma_spelled("(NAMED_UNIT(*) PLANE_ANGLE_UNIT() SI_UNIT($,.RADIAN.))"@);
    lemma_spelled("(NAMED_UNIT(*) SI_UNIT($,.STERADIAN.) SOLID_ANGLE_UNIT())"@);
    let (n2, n3, n4, n5) = ((c + 2) as nat, (c + 3) as nat, (c + 4) as nat, (c + 5) as nat);
    lemma_spelled(decimal(n2));
    lemma_spelled(decimal(n3));
    lemma_spelled(decimal(n4));
    lemma_spelled(decimal(n5));
    assert(spelled(x) =~= spelled(x0) + spelled("#"@));
    assert(spelled(y) =~= spelled(y0) + spelled("#"@));
    assert(spelled(u) =~= spelled(u0) + spelled("#"@));
    assert(spelled(",#"@) =~= spelled(","@) + spelled("#"@));
    let b = Script::empty().text(x).whole(n2).text(y).whole(n3).text(",#"@).whole(n4).text(
        ",#"@,
    ).whole(n5).text(z);
    assert(b.glyphs =~= context_text(c + 2, c + 3, c + 4, c + 5));
    let d = Script::empty().text(u).whole(n3).text(",('',''))"@);
    assert(d.glyphs =~= (spelled(u0) + reference(c + 3)) + spelled(",('',''))"@));
    let l = Script::empty().text("(LENGTH_UNIT() NAMED_UNIT(*) SI_UNIT(.MILLI.,.METRE.))"@);
    assert(l.glyphs =~= spelled("(LENGTH_UNIT() NAMED_UNIT(*) SI_UNIT(.MILLI.,.METRE.))"@));
    let a = Script::empty().text("(NAMED_UNIT(*) PLANE_ANGLE_UNIT() SI_UNIT($,.RADIAN.))"@);
    assert(a.glyphs =~= spelled("(NAMED_UNIT(*) PLANE_ANGLE_UNIT() SI_UNIT($,.RADIAN.))"@));
    let o = Script::empty().text("(NAMED_UNIT(*) SI_UNIT($,.STERADIAN.) SOLID_ANGLE_UNIT())"@);
    assert(o.glyphs =~= spelled("(NAMED_UNIT(*) SI_UNIT($,.STERADIAN.) SOLID_ANGLE_UNIT())"@));
    let t = s.geometric_context().units();
    let m = c;
    assert(t.lines[m] == b);
    assert(t.lines[m + 1] == d);
    assert(t.lines[m + 2] == l);
    assert(t.lines[m + 3] == a);
    assert(t.lines[m + 4] == o);
    let w = s.geometric_context().blank().units();
    assert(w.lines[m] == b);
    assert(w.lines[m + 1] == d);
    assert(w.lines[m + 2] == l);
    assert(w.lines[m + 3] == a);
    assert(w.lines[m + 4] == o);
}

// ── Files of parts ──────────────────────────────────────────────────────────

/// Whether a file says of a solid that it is the shape of the product of part
/// `place`: the product stands after those before it, and what represents its
/// shape is the solid, in a geometric context.
pub open spec fn is_part(
    lines: Seq<Script>,
    place: int,
    model: Model,
    solid: SolidId,
    label: Seq<char>,
    item: usize,
    link: int,
    geometry: int,
) -> bool {
    let product = 4 * place + 4;
    &&& is_part_product(lines, product, place as nat, 3)
    &&& is_solid(lines, item as int, model, solid, label)
    &&& represents(lines, link, item, product + 3, geometry)
    &&& is_context(lines, geometry)
}

proof fn lemma_application(protocol: Protocol)
    ensures
        counted(StepState::start().application(protocol)),
        StepState::start().application(protocol).counter == 3,
{
    reveal(StepState::application);
}

proof fn lemma_named_before(model: Model, ids: Seq<SolidId>, j: int, k: int)
    requires
        0 <= j < k,
        model.solids.dom().contains(ids[j]),
    ensures
        solids_named(model, ids, j) < solids_named(model, ids, k),
    decreases k,
{
    if j + 1 < k {
        lemma_named_before(model, ids, j, k - 1);
    }
}

/// Whoever reads a file of parts finds every solid that was asked for, with each
/// of its faces on its surface, as the shape of a product of its own: the first
/// solid with the first product, and so on. An id of no solid has no product.
pub proof fn law_part_files_read_back(
    model: Model,
    ids: Seq<SolidId>,
    sheets: Seq<Vec<FaceSheet>>,
    j: int,
)
    requires
        part_state(model, ids, sheets).counter <= usize::MAX,
        0 <= j < ids.len(),
        model.solids.dom().contains(ids[j]),
    ensures
        exists|item: usize, link: int, geometry: int| #[trigger]
            is_part(
                part_state(model, ids, sheets).lines,
                solids_named(model, ids, j) as int,
                model,
                ids[j],
                goes_by(model.solids[ids[j]], "solid"@, j as nat),
                item,
                link,
                geometry,
            ),
{
    let k = ids.len() as int;
    let n = solids_named(model, ids, k);
    let at = solids_named(model, ids, j) as int;
    let s1 = StepState::start().application(Protocol::Ap203);
    let s2 = products_emitted(s1, s1.counter, n);
    let solids = solids_emitted(s2, model, ids, sheets, k);
    let s3 = solids.state.geometric_context();
    let s4 = s3.blank().units();
    let t = part_state(model, ids, sheets);
    let name = goes_by(model.solids[ids[j]], "solid"@, j as nat);
    lemma_application(Protocol::Ap203);
    lemma_products(s1, 3, n);
    lemma_shapes_counter(s4, solids.ids, s1.counter, s3.counter, n);
    assert(solids.state.counter <= s4.counter) by {
        reveal(StepState::units);
    }
    lemma_solids_counter(s2, model, ids, sheets, k);
    crate::reading_files::lemma_solids_read(s2, model, ids, sheets, k);
    law_contexts_read_back(solids.state);
    lemma_shapes(s4, solids.ids, s1.counter, s3.counter, n);
    lemma_named_before(model, ids, j, k);
    lemma_stay_chain(solids.state, s4, t);
    lemma_stay_chain(s2, solids.state, t);
    let item = solids.ids[at];
    assert(is_solid(solids.state.lines, item as int, model, ids[j], name));
    lemma_solid_stays(solids.state, t, item as int, model, ids[j], name);
    lemma_says_stays(s2, t);
    lemma_says_stays(s4, t);
    assert(is_part_product(s2.lines, s1.counter + 4 * at + 1, at as nat, 3));
    let link = s4.counter + 2 * at + 1;
    assert(represents(t.lines, link, item, s1.counter + 4 * at + 4, s3.counter as int));
    assert(is_context(t.lines, s3.counter as int));
    assert(is_part(t.lines, at, model, ids[j], name, item, link, s3.counter as int));
}

proof fn lemma_shapes_counter(s: StepState, items: Seq<usize>, base: nat, geometry: nat, k: nat)
    ensures
        s.counter <= shapes_emitted(s, items, base, geometry, k).counter,
    decreases k,
{
    if k > 0 {
        lemma_shapes_counter(s, items, base, geometry, (k - 1) as nat);
    }
}

// ── Components of assemblies ────────────────────────────────────────────────

/// The use of a component in an assembly as it is written: its number and its
/// label, the assembly's definition, then the component's.
pub open spec fn usage_text(
    place: nat,
    label: Seq<char>,
    whole: int,
    part: int,
) -> Seq<Glyph> {
    done(
        also(
            also(
                also(
                    also(
                        also(
                            named("NEXT_ASSEMBLY_USAGE_OCCURRENCE"@, decimal(place)),
                            Arg::Text(label),
                        ),
                        Arg::Text(""@),
                    ),
                    Arg::Ref(whole),
                ),
                Arg::Ref(part),
            ),
            Arg::Unset,
        ),
    )
}

/// A move from one placement to another as it is written.
pub open spec fn move_text(from: int, to: int) -> Seq<Glyph> {
    done(
        also(
            also(
                also(named("ITEM_DEFINED_TRANSFORMATION"@, ""@), Arg::Text(""@)),
                Arg::Ref(from),
            ),
            Arg::Ref(to),
        ),
    )
}

/// The relation of a component's representation to the assembly's as it is
/// written, with the move between them.
pub open spec fn relation_text(part: int, whole: int, by: int) -> Seq<Glyph> {
    ((done(
        also(
            also(
                also(named("(REPRESENTATION_RELATIONSHIP"@, ""@), Arg::Text(""@)),
                Arg::Ref(part),
            ),
            Arg::Ref(whole),
        ),
    ) + spelled(" REPRESENTATION_RELATIONSHIP_WITH_TRANSFORMATION("@)) + reference(by)) + spelled(
        ") SHAPE_REPRESENTATION_RELATIONSHIP())"@,
    )
}

/// The shape of a component in its place as it is written: the relation, then the
/// shape of the use.
pub open spec fn in_place_text(relation: int, usage: int) -> Seq<Glyph> {
    done(
        also(
            unnamed("CONTEXT_DEPENDENT_SHAPE_REPRESENTATION"@, Arg::Ref(relation)),
            Arg::Ref(usage),
        ),
    )
}

/// Whether the eight entities from `id` on are a part: a shell and its solid, a
/// product with its formation, definition and shape, and the representation of
/// that shape by that solid, all under one label.
pub open spec fn is_labelled_part(
    lines: Seq<Script>,
    id: int,
    faces: Seq<usize>,
    label: Seq<char>,
    context: usize,
    geometry: int,
) -> bool {
    &&& says(lines, id, shell_text(faces))
    &&& says(lines, id + 1, solid_text(label, id))
    &&& says(lines, id + 2, product_text(label, label, context))
    &&& is_shaped(lines, id + 2, context as int)
    &&& says(lines, id + 6, representation_text(label, (id + 1) as usize, geometry))
    &&& says(lines, id + 7, link_text(id + 5, id + 6))
}

proof fn lemma_label(g: Script, solid: Solid, other: Seq<char>, place: nat)
    ensures
        label(g, solid, other, place).glyphs == g.glyphs + spelled(goes_by(solid, other, place)),
{
    let text = goes_by(solid, other, place);
    assert(text == label_text(solid_base(solid, other), place));
    lemma_spelled(text);
}

/// A part reads back.
pub proof fn law_parts_read_back(
    s: StepState,
    faces: Seq<usize>,
    solid: Solid,
    other: Seq<char>,
    place: nat,
    context: usize,
    geometry: nat,
)
    requires
        counted(s),
        s.counter + 8 <= usize::MAX,
    ensures
        ({
            let t = s.part(faces, solid, other, place, context as nat, geometry);
            &&& counted(t)
            &&& lines_stay(s, t)
            &&& t.counter == s.counter + 8
            &&& is_labelled_part(
                t.lines,
                s.counter as int + 1,
                faces,
                goes_by(solid, other, place),
                context,
                geometry as int,
            )
        }),
{
    reveal(StepState::part);
    let name = goes_by(solid, other, place);
    let s1 = s.manifold(faces, solid, other, place);
    law_shells_read_back(s, faces, solid, other, place);
    // The product.
    let head = Script::empty().text("PRODUCT('"@);
    let a1 = label(head, solid, other, place);
    let a2 = a1.text("','"@);
    let a3 = label(a2, solid, other, place);
    lemma_label(head, solid, other, place);
    lemma_label(a2, solid, other, place);
    reveal_strlit("PRODUCT('");
    reveal_strlit("PRODUCT");
    reveal_strlit("('");
    reveal_strlit("','");
    reveal_strlit("'");
    reveal_strlit(",");
    lemma_spelled("PRODUCT('"@);
    lemma_spelled("','"@);
    assert(spelled("PRODUCT('"@) =~= spelled("PRODUCT"@) + spelled("('"@));
    assert(spelled("','"@) =~= (spelled("'"@) + spelled(","@)) + spelled("'"@));
    assert(a3.glyphs + spelled("'"@) =~= also(named("PRODUCT"@, name), Arg::Text(name)));
    lemma_product_end(a3, context);
    let b1 = a3.text("','',(#"@).whole(context as nat).text("))"@);
    let s2 = s1.put(b1);
    // Its shape.
    let s3 = s2.product_shape(context as nat);
    law_product_shapes_read_back(s2, context as nat);
    // The representation of the shape.
    let front = Script::empty().text("SHAPE_REPRESENTATION('"@);
    let c1 = label(front, solid, other, place);
    lemma_label(front, solid, other, place);
    reveal_strlit("SHAPE_REPRESENTATION('");
    reveal_strlit("SHAPE_REPRESENTATION");
    lemma_spelled("SHAPE_REPRESENTATION('"@);
    assert(spelled("SHAPE_REPRESENTATION('"@) =~= spelled("SHAPE_REPRESENTATION"@) + spelled(
        "('"@,
    ));
    assert(c1.glyphs + spelled("'"@) =~= named("SHAPE_REPRESENTATION"@, name));
    lemma_representation_end(c1, s1.counter as usize, geometry);
    let c2 = c1.text("',(#"@).whole(s1.counter).text("),#"@).whole(geometry).text(")"@);
    let s4 = s3.put(c2);
    let t = s4.shape_link(s3.counter, s4.counter);
    law_links_read_back(s4, s3.counter, s4.counter);
    assert(t == s.part(faces, solid, other, place, context as nat, geometry));
    // All of it stays.
    assert(lines_stay(s1, s2));
    assert(lines_stay(s3, s4));
    lemma_stay_chain(s3, s4, t);
    lemma_stay_chain(s2, s3, t);
    lemma_stay_chain(s1, s2, t);
    lemma_stay_chain(s, s1, t);
    assert(says(s2.lines, s2.counter as int, product_text(name, name, context)));
    assert(says(
        s4.lines,
        s4.counter as int,
        representation_text(name, s1.counter as usize, geometry as int),
    ));
    lemma_says_stays(s1, t);
    lemma_says_stays(s2, t);
    lemma_says_stays(s3, t);
    lemma_says_stays(s4, t);
}

/// Whether the entities after a part put it into an assembly: the use of its
/// definition by the assembly's, two placements at the assembly's origin, the
/// move from the one to the other, the relation of its representation to the
/// assembly's by that move, and its shape in that place.
pub open spec fn is_in_place(
    lines: Seq<Script>,
    id: int,
    label: Seq<char>,
    place: nat,
    assembly: AssemblyIds,
) -> bool {
    let usage = id + 8;
    &&& says(lines, usage, usage_text(place, label, assembly.definition as int, id + 4))
    &&& says(
        lines,
        usage + 1,
        placement_text(""@, assembly.origin as int, assembly.z as int, assembly.x as int),
    )
    &&& says(
        lines,
        usage + 2,
        placement_text(""@, assembly.origin as int, assembly.z as int, assembly.x as int),
    )
    &&& says(lines, usage + 3, move_text(usage + 1, usage + 2))
    &&& says(
        lines,
        usage + 4,
        relation_text(id + 6, assembly.representation as int, usage + 3),
    )
    &&& says(lines, usage + 5, in_place_text(usage + 4, usage))
}

proof fn lemma_usage(g: Script, place: nat, name: Seq<char>, whole: nat, part: nat)
    requires
        g.glyphs == Script::empty().text("NEXT_ASSEMBLY_USAGE_OCCURRENCE('"@).whole(place).text(
            "','"@,
        ).glyphs + spelled(name),
    ensures
        g.text("','',#"@).whole(whole).text(",#"@).whole(part).text(",$)"@).glyphs == usage_text(
            place,
            name,
            whole as int,
            part as int,
        ),
{
    let head = "NEXT_ASSEMBLY_USAGE_OCCURRENCE('"@;
    let kind = "NEXT_ASSEMBLY_USAGE_OCCURRENCE"@;
    reveal_strlit("NEXT_ASSEMBLY_USAGE_OCCURRENCE('");
    reveal_strlit("NEXT_ASSEMBLY_USAGE_OCCURRENCE");
    reveal_strlit("('");
    reveal_strlit("','");
    reveal_strlit("','',#");
    reveal_strlit("'");
    reveal_strlit(",");
    reveal_strlit("");
    reveal_strlit("#");
    reveal_strlit("$");
    reveal_strlit(")");
    reveal_strlit(",$)");
    lemma_spelled(head);
    lemma_spelled("','"@);
    lemma_spelled("','',#"@);
    lemma_spelled(",$)"@);
    lemma_spelled(decimal(place));
    lemma_spelled(decimal(whole));
    assert(spelled(head) =~= spelled(kind) + spelled("('"@));
    assert(spelled("','"@) =~= (spelled("'"@) + spelled(","@)) + spelled("'"@));
    let g1 = also(named(kind, decimal(place)), Arg::Text(name));
    assert(g.glyphs + spelled("'"@) =~= g1);
    let g2 = also(g1, Arg::Text(""@));
    assert(spelled("','',#"@) =~= ((((spelled("'"@) + spelled(","@)) + ((spelled("'"@) + spelled(
        ""@,
    )) + spelled("'"@))) + spelled(","@)) + spelled("#"@)));
    let b1 = g.text("','',#"@).whole(whole);
    assert(b1.glyphs =~= also(g2, Arg::Ref(whole as int)));
    lemma_ref_step(b1, part);
    let b2 = b1.text(",#"@).whole(part);
    assert(spelled(",$)"@) =~= (spelled(","@) + spelled("$"@)) + spelled(")"@));
    assert(b2.text(",$)"@).glyphs =~= done(also(b2.glyphs, Arg::Unset)));
}

proof fn lemma_move(from: nat, to: nat)
    ensures
        Script::empty().text("ITEM_DEFINED_TRANSFORMATION('','',#"@).whole(from).text(",#"@).whole(
            to,
        ).text(")"@).glyphs == move_text(from as int, to as int),
{
    let x = "ITEM_DEFINED_TRANSFORMATION('','',#"@;
    let g = also(named("ITEM_DEFINED_TRANSFORMATION"@, ""@), Arg::Text(""@));
    reveal_strlit("ITEM_DEFINED_TRANSFORMATION('','',#");
    reveal_strlit("ITEM_DEFINED_TRANSFORMATION");
    reveal_strlit("('");
    reveal_strlit("'");
    reveal_strlit(",");
    reveal_strlit("");
    reveal_strlit("#");
    lemma_spelled(x);
    lemma_spelled(decimal(from));
    assert(spelled(x) =~= (g + spelled(","@)) + spelled("#"@));
    let b = Script::empty().text(x).whole(from);
    assert(b.glyphs =~= also(g, Arg::Ref(from as int)));
    lemma_ref_step(b, to);
    lemma_done_step(b.text(",#"@).whole(to));
}

proof fn lemma_relation(part: nat, whole: nat, by: nat)
    ensures
        Script::empty().text("(REPRESENTATION_RELATIONSHIP('','',#"@).whole(part).text(",#"@).whole(
            whole,
        ).text(") REPRESENTATION_RELATIONSHIP_WITH_TRANSFORMATION(#"@).whole(by).text(
            ") SHAPE_REPRESENTATION_RELATIONSHIP())"@,
        ).glyphs == relation_text(part as int, whole as int, by as int),
{
    let x = "(REPRESENTATION_RELATIONSHIP('','',#"@;
    let y = ") REPRESENTATION_RELATIONSHIP_WITH_TRANSFORMATION(#"@;
    let y0 = " REPRESENTATION_RELATIONSHIP_WITH_TRANSFORMATION("@;
    let z = ") SHAPE_REPRESENTATION_RELATIONSHIP())"@;
    let g = also(named("(REPRESENTATION_RELATIONSHIP"@, ""@), Arg::Text(""@));
    reveal_strlit("(REPRESENTATION_RELATIONSHIP('','',#");
    reveal_strlit(") REPRESENTATION_RELATIONSHIP_WITH_TRANSFORMATION(#");
    reveal_strlit(" REPRESENTATION_RELATIONSHIP_WITH_TRANSFORMATION(");
    reveal_strlit("(REPRESENTATION_RELATIONSHIP");
    reveal_strlit("('");
    reveal_strlit("'");
    reveal_strlit(",");
    reveal_strlit("");
    reveal_strlit(")");
    reveal_strlit("#");
    lemma_spelled(x);
    lemma_spelled(y);
    lemma_spelled(z);
    lemma_spelled(decimal(part));
    lemma_spelled(decimal(by));
    assert(spelled(x) =~= (g + spelled(","@)) + spelled("#"@));
    let b = Script::empty().text(x).whole(part);
    assert(b.glyphs =~= also(g, Arg::Ref(part as int)));
    lemma_ref_step(b, whole);
    let b1 = b.text(",#"@).whole(whole);
    assert(spelled(y) =~= (spelled(")"@) + spelled(y0)) + spelled("#"@));
    assert(b1.text(y).whole(by).text(z).glyphs =~= relation_text(
        part as int,
        whole as int,
        by as int,
    ));
}

proof fn lemma_in_place(relation: nat, usage: nat)
    ensures
        Script::empty().text("CONTEXT_DEPENDENT_SHAPE_REPRESENTATION(#"@).whole(relation).text(
            ",#"@,
        ).whole(usage).text(")"@).glyphs == in_place_text(relation as int, usage as int),
{
    let x = "CONTEXT_DEPENDENT_SHAPE_REPRESENTATION(#"@;
    reveal_strlit("CONTEXT_DEPENDENT_SHAPE_REPRESENTATION(#");
    reveal_strlit("CONTEXT_DEPENDENT_SHAPE_REPRESENTATION");
    reveal_strlit("(");
    reveal_strlit("#");
    lemma_spelled(x);
    lemma_spelled(decimal(relation));
    assert(spelled(x) =~= (spelled("CONTEXT_DEPENDENT_SHAPE_REPRESENTATION"@) + spelled("("@))
        + spelled("#"@));
    let b = Script::empty().text(x).whole(relation);
    assert(b.glyphs =~= unnamed(
        "CONTEXT_DEPENDENT_SHAPE_REPRESENTATION"@,
        Arg::Ref(relation as int),
    ));
    lemma_ref_step(b, usage);
    lemma_done_step(b.text(",#"@).whole(usage));
}

/// A component reads back: it is a part, and it is put into the assembly where
/// the assembly is.
pub proof fn law_components_read_back(
    s: StepState,
    faces: Seq<usize>,
    solid: Solid,
    place: nat,
    assembly: AssemblyIds,
)
    requires
        counted(s),
        s.counter + 14 <= usize::MAX,
    ensures
        ({
            let t = s.component(faces, solid, place, assembly);
            let id = s.counter as int + 1;
            let label = goes_by(solid, "part"@, place);
            &&& counted(t)
            &&& lines_stay(s, t)
            &&& t.counter == s.counter + 14
            &&& is_labelled_part(
                t.lines,
                id,
                faces,
                label,
                assembly.context,
                assembly.geometry as int,
            )
            &&& is_in_place(t.lines, id, label, place, assembly)
        }),
{
    reveal(StepState::component);
    let name = goes_by(solid, "part"@, place);
    let id = s.counter as int + 1;
    let s5 = s.part(
        faces,
        solid,
        "part"@,
        place,
        assembly.context as nat,
        assembly.geometry as nat,
    );
    law_parts_read_back(
        s,
        faces,
        solid,
        "part"@,
        place,
        assembly.context,
        assembly.geometry as nat,
    );
    let definition = (s5.counter - 3) as nat;
    let representation = (s5.counter - 1) as nat;
    let head = Script::empty().text("NEXT_ASSEMBLY_USAGE_OCCURRENCE('"@).whole(place).text("','"@);
    let g = label(head, solid, "part"@, place);
    lemma_label(head, solid, "part"@, place);
    lemma_usage(g, place, name, assembly.definition as nat, definition);
    let b6 = g.text("','',#"@).whole(assembly.definition as nat).text(",#"@).whole(
        definition,
    ).text(",$)"@);
    let s6 = s5.put(b6);
    let (o, z, x) = (assembly.origin as nat, assembly.z as nat, assembly.x as nat);
    let s7 = s6.placement(""@, o, z, x);
    let s8 = s7.placement(""@, o, z, x);
    lemma_placement_text(s6, ""@, o, z, x);
    lemma_placement_text(s7, ""@, o, z, x);
    let b9 = Script::empty().text("ITEM_DEFINED_TRANSFORMATION('','',#"@).whole(s7.counter).text(
        ",#"@,
    ).whole(s8.counter).text(")"@);
    let s9 = s8.put(b9);
    lemma_move(s7.counter, s8.counter);
    let b10 = Script::empty().text("(REPRESENTATION_RELATIONSHIP('','',#"@).whole(
        representation,
    ).text(",#"@).whole(assembly.representation as nat).text(
        ") REPRESENTATION_RELATIONSHIP_WITH_TRANSFORMATION(#"@,
    ).whole(s9.counter).text(") SHAPE_REPRESENTATION_RELATIONSHIP())"@);
    let s10 = s9.put(b10);
    lemma_relation(representation, assembly.representation as nat, s9.counter);
    let b11 = Script::empty().text("CONTEXT_DEPENDENT_SHAPE_REPRESENTATION(#"@).whole(
        s10.counter,
    ).text(",#"@).whole(s6.counter).text(")"@);
    lemma_in_place(s10.counter, s6.counter);
    let t = s10.put(b11);
    assert(t == s.component(faces, solid, place, assembly));
    let n = s5.counter as int;
    assert(t.lines[n] == b6);
    assert(t.lines[n + 1] == s7.lines.last());
    assert(t.lines[n + 2] == s8.lines.last());
    assert(t.lines[n + 3] == b9);
    assert(t.lines[n + 4] == b10);
    assert(t.lines[n + 5] == b11);
    assert(lines_stay(s5, t));
    lemma_stay_chain(s, s5, t);
    lemma_says_stays(s5, t);
}

} // verus!
