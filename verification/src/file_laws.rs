//! What holds of a file as a whole, be it of parts or of an assembly.

use vstd::prelude::*;

use crate::bounds::{Emitted, FaceSheet, use_body};
use crate::brep::Model;
use crate::cut::{live_faces, shell_faces};
use crate::entities::{Face, Solid};
use crate::growth::{lemma_advanced_face, lemma_pieces, lemma_placement};
use crate::ids::{FaceId, ShellId, SolidId};
use crate::marks::{
    among, aside, hanging, hook, is_digit, law_references, lead, lemma_aside, lemma_aside_refs,
    lemma_characters, lemma_digits, lemma_refs, lemma_unused, mark, newline, opens, plain, reads,
    refers, settled, unused,
};
use crate::neat::{
    follows, is_edge_curve, is_first, lemma_a_link, lemma_a_product, lemma_neat_blank,
    lemma_neat_cleared, lemma_neat_put, lemma_neat_start, lemma_no_gap_ahead, lemma_no_product,
    lemma_opens_on, links, neat, opens_with, products, rendered, spaced_line, times_run,
    times_said,
};
use crate::script::{Glyph, Script, characters, decimal};
use crate::step::{StepState, StepUse, entity_line};
use crate::step_laws::law_decimal_is_unambiguous;
use crate::writer::{
    AssemblyIds, Protocol, application_text, assembly_head, assembly_ids, assembly_state,
    components_emitted, definition_text, file, file_head, file_tail, label, label_text,
    part_shape_body, part_state, product_body, products_emitted, schema_text, shapes_emitted,
    shell_emitted, shells_emitted, solid_base, solid_emitted, solids_emitted, solids_named,
};

verus! {

/// No product and no link is new.
spec fn same_products(s: StepState, t: StepState) -> bool {
    products(t.lines) == products(s.lines) && links(t.lines) == links(s.lines)
}

/// One more entity that is no product, no link, no use and no edge curve.
proof fn lemma_plain_put(s: StepState, limit: nat, body: Script)
    requires
        neat(s, limit),
        s.counter + 1 <= limit,
        settled(body, limit),
        aside(body),
    ensures
        neat(s.put(body), limit),
        same_products(s, s.put(body)),
{
    lemma_no_product(s.lines, body);
    reveal(aside);
    lemma_neat_put(s, limit, body);
}

/// What was in order is, and ids of entities are ids of entities, as far as
/// they can be told apart; no product and no link is new.
spec fn kept(before: Emitted, after: Emitted) -> bool {
    &&& before.state.counter <= after.state.counter
    &&& same_products(before.state, after.state)
    &&& forall|limit: nat| #[trigger]
        neat(before.state, limit) && after.state.counter <= limit <= usize::MAX && among(
            before.ids,
            before.state.counter,
        ) ==> neat(after.state, limit) && among(after.ids, after.state.counter)
}

proof fn lemma_kept_chain(a: Emitted, b: Emitted, c: Emitted)
    requires
        kept(a, b),
        kept(b, c),
    ensures
        kept(a, c),
{
    assert forall|limit: nat| #[trigger]
        neat(a.state, limit) && c.state.counter <= limit <= usize::MAX && among(
            a.ids,
            a.state.counter,
        ) implies neat(c.state, limit) && among(c.ids, c.state.counter) by {
        assert(neat(b.state, limit));
    }
}

proof fn lemma_shell(
    done: Emitted,
    faces: Map<FaceId, Face>,
    ids: Seq<FaceId>,
    sheets: Seq<FaceSheet>,
    offset: int,
    j: int,
)
    ensures
        kept(done, shell_emitted(done, faces, ids, sheets, offset, j)),
    decreases j,
{
    if j > 0 {
        let so_far = shell_emitted(done, faces, ids, sheets, offset, j - 1);
        let all = shell_emitted(done, faces, ids, sheets, offset, j);
        lemma_shell(done, faces, ids, sheets, offset, j - 1);
        if faces.dom().contains(ids[j - 1]) {
            let k = offset + live_faces(faces, ids.take(j - 1)).len();
            let t = so_far.state.advanced_face(faces[ids[j - 1]], sheets[k]);
            lemma_advanced_face(so_far.state, faces[ids[j - 1]], sheets[k]);
            assert(kept(so_far, all)) by {
                assert forall|limit: nat| #[trigger]
                    neat(so_far.state, limit) && all.state.counter <= limit <= usize::MAX && among(
                        so_far.ids,
                        so_far.state.counter,
                    ) implies neat(all.state, limit) && among(all.ids, all.state.counter) by {
                    assert forall|i: int| 0 <= i < all.ids.len() implies 1
                        <= #[trigger] all.ids[i] <= all.state.counter by {
                        if i < so_far.ids.len() {
                            assert(all.ids[i] == so_far.ids[i]);
                        }
                    }
                }
            }
            lemma_kept_chain(done, so_far, all);
        }
    }
}

proof fn lemma_shells(
    state: StepState,
    model: Model,
    shells: Seq<ShellId>,
    sheets: Seq<FaceSheet>,
    i: int,
)
    ensures
        kept(
            (Emitted { state, ids: seq![] }),
            shells_emitted(state, model, shells, sheets, i),
        ),
    decreases i,
{
    let start = Emitted { state, ids: seq![] };
    if i > 0 {
        let so_far = shells_emitted(state, model, shells, sheets, i - 1);
        let fresh = Emitted { state: so_far.state.cleared(), ids: so_far.ids };
        let id = shells[i - 1];
        lemma_shells(state, model, shells, sheets, i - 1);
        assert(kept(so_far, fresh)) by {
            assert forall|limit: nat| #[trigger] neat(so_far.state, limit) implies neat(
                fresh.state,
                limit,
            ) by {
                lemma_neat_cleared(so_far.state, limit);
            }
        }
        lemma_kept_chain(start, so_far, fresh);
        if model.shells.dom().contains(id) {
            let ids = model.shells[id].faces@;
            let offset = shell_faces(model, shells.take(i - 1)).len() as int;
            lemma_shell(fresh, model.faces, ids, sheets, offset, ids.len() as int);
            lemma_kept_chain(
                start,
                fresh,
                shell_emitted(fresh, model.faces, ids, sheets, offset, ids.len() as int),
            );
        }
    }
}

proof fn lemma_solid(state: StepState, model: Model, solid: SolidId, sheets: Seq<FaceSheet>)
    ensures
        kept((Emitted { state, ids: seq![] }), solid_emitted(state, model, solid, sheets)),
{
    if model.solids.dom().contains(solid) {
        let shells = model.solids[solid].shells@;
        lemma_shells(state, model, shells, sheets, shells.len() as int);
    }
}

/// Whether a solid's name has no mark in it.
pub open spec fn named_plainly(solid: Solid) -> bool {
    match solid.name {
        Some(name) => plain(name@),
        None => true,
    }
}

proof fn lemma_label(solid: Solid, other: Seq<char>, place: nat)
    requires
        named_plainly(solid),
        plain(other),
    ensures
        plain(label_text(solid_base(solid, other), place)),
{
    reveal(plain);
    let base = solid_base(solid, other);
    let text = label_text(base, place);
    lemma_digits(place);
    assert forall|i: int| 0 <= i < text.len() implies #[trigger] text[i] != '#' by {
        if i < base.len() {
            assert(text[i] == base[i]);
        } else if i == base.len() {
            assert(text[i] == (base + seq!['_'])[i]);
            assert(text[i] == '_');
        } else {
            assert(text[i] == decimal(place)[i - base.len() - 1]);
            assert('0' <= decimal(place)[i - base.len() - 1] <= '9');
        }
    }
}

proof fn lemma_manifold(
    s: StepState,
    faces: Seq<usize>,
    solid: Solid,
    other: Seq<char>,
    place: nat,
    limit: nat,
)
    requires
        named_plainly(solid),
        plain(other),
        s.counter + 2 <= limit <= usize::MAX,
        neat(s, limit),
        among(faces, s.counter),
    ensures
        neat(s.manifold(faces, solid, other, place), limit),
        same_products(s, s.manifold(faces, solid, other, place)),
        s.manifold(faces, solid, other, place).counter == s.counter + 2,
{
    reveal(StepState::manifold);
    let x = "CLOSED_SHELL('',("@;
    let y = "MANIFOLD_SOLID_BREP('"@;
    let h1 = Script::empty().text(x);
    let b1 = h1.refs(faces).text("))"@);
    let t = s.put(b1);
    let h2 = Script::empty().text(y);
    let b2 = label(h2, solid, other, place).text("',#"@).whole(t.counter).text(")"@);
    lemma_pieces();
    lemma_label(solid, other, place);
    assert(plain(x) && lead(x) && x.len() > 0 && x.last() != '\n' && plain(y) && lead(y)) by {
        reveal(plain);
        reveal(lead);
        reveal_strlit("CLOSED_SHELL('',(");
        reveal_strlit("MANIFOLD_SOLID_BREP('");
    }
    assert(aside(b1) && aside(b2)) by {
        lemma_aside();
        assert(aside(h1) && aside(h2));
        lemma_aside_refs(h1, faces);
    }
    assert(among(faces, limit));
    lemma_refs(x, faces, limit);
    law_references(limit);
    assert(settled(b1, limit));
    lemma_plain_put(s, limit, b1);
    assert(settled(label(h2, solid, other, place), limit));
    assert(hanging(label(h2, solid, other, place).text("',#"@), limit));
    assert(settled(b2, limit));
    lemma_plain_put(t, limit, b2);
}

proof fn lemma_product_shape(s: StepState, context: nat, limit: nat)
    requires
        1 <= context <= s.counter,
        s.counter + 3 <= limit,
        neat(s, limit),
    ensures
        neat(s.product_shape(context), limit),
        same_products(s, s.product_shape(context)),
        s.product_shape(context).counter == s.counter + 3,
{
    reveal(StepState::product_shape);
    let h1 = Script::empty().text("PRODUCT_DEFINITION_FORMATION('','',#"@);
    let b1 = h1.whole(s.counter).text(")"@);
    let s1 = s.put(b1);
    let h2 = Script::empty().text("PRODUCT_DEFINITION('design','',#"@);
    let b2 = h2.whole(s1.counter).text(",#"@).whole(context).text(")"@);
    let s2 = s1.put(b2);
    let h3 = Script::empty().text("PRODUCT_DEFINITION_SHAPE('','',#"@);
    let b3 = h3.whole(s2.counter).text(")"@);
    lemma_pieces();
    assert(hook("PRODUCT_DEFINITION_FORMATION('','',#"@) && lead(
        "PRODUCT_DEFINITION_FORMATION('','',#"@,
    ) && hook("PRODUCT_DEFINITION('design','',#"@) && lead("PRODUCT_DEFINITION('design','',#"@)
        && hook("PRODUCT_DEFINITION_SHAPE('','',#"@) && lead(
        "PRODUCT_DEFINITION_SHAPE('','',#"@,
    )) by {
        reveal(hook);
        reveal(lead);
        reveal_strlit("PRODUCT_DEFINITION_FORMATION('','',#");
        reveal_strlit("PRODUCT_DEFINITION('design','',#");
        reveal_strlit("PRODUCT_DEFINITION_SHAPE('','',#");
    }
    assert(aside(b1) && aside(b2) && aside(b3)) by {
        lemma_aside();
        assert(aside(h1) && aside(h2) && aside(h3));
    }
    law_references(limit);
    assert(hanging(h1, limit) && hanging(h2, limit) && hanging(h3, limit));
    lemma_plain_put(s, limit, b1);
    assert(hanging(h2.whole(s1.counter).text(",#"@), limit));
    lemma_plain_put(s1, limit, b2);
    lemma_plain_put(s2, limit, b3);
}

proof fn lemma_shape_link(s: StepState, shape: nat, representation: nat, limit: nat)
    requires
        1 <= shape <= s.counter,
        1 <= representation <= s.counter,
        s.counter + 1 <= limit,
        neat(s, limit),
    ensures
        neat(s.shape_link(shape, representation), limit),
        s.shape_link(shape, representation).counter == s.counter + 1,
        products(s.shape_link(shape, representation).lines) == products(s.lines),
        links(s.shape_link(shape, representation).lines) == links(s.lines) + 1,
{
    let h = Script::empty().text("SHAPE_DEFINITION_REPRESENTATION(#"@);
    let b = h.whole(shape).text(",#"@).whole(representation).text(")"@);
    lemma_pieces();
    let x = "SHAPE_DEFINITION_REPRESENTATION(#"@;
    assert(hook(x) && x.len() > 0 && x[0] == 'S') by {
        reveal(hook);
        reveal_strlit("SHAPE_DEFINITION_REPRESENTATION(#");
    }
    assert(unused(b)) by {
        lemma_unused();
        assert(unused(h));
    }
    assert(opens_with(b, x)) by {
        lemma_opens_on(x);
        assert(opens_with(h, x));
    }
    lemma_a_link(s.lines, b);
    law_references(limit);
    assert(hanging(h, limit));
    assert(hanging(h.whole(shape).text(",#"@), limit));
    lemma_neat_put(s, limit, b);
}

proof fn lemma_product(
    s: StepState,
    solid: Solid,
    other: Seq<char>,
    place: nat,
    context: nat,
    limit: nat,
)
    requires
        named_plainly(solid),
        plain(other),
        1 <= context <= s.counter,
        s.counter + 1 <= limit,
        neat(s, limit),
    ensures
        neat(
            s.put(
                label(
                    label(Script::empty().text("PRODUCT('"@), solid, other, place).text("','"@),
                    solid,
                    other,
                    place,
                ).text("','',(#"@).whole(context).text("))"@),
            ),
            limit,
        ),
        ({
            let t = s.put(
                label(
                    label(Script::empty().text("PRODUCT('"@), solid, other, place).text("','"@),
                    solid,
                    other,
                    place,
                ).text("','',(#"@).whole(context).text("))"@),
            );
            products(t.lines) == products(s.lines) + 1 && links(t.lines) == links(s.lines)
        }),
{
    let h = Script::empty().text("PRODUCT('"@);
    let m = label(label(h, solid, other, place).text("','"@), solid, other, place);
    let b = m.text("','',(#"@).whole(context).text("))"@);
    lemma_pieces();
    lemma_label(solid, other, place);
    assert(plain("PRODUCT('"@) && "PRODUCT('"@.len() > 0 && "PRODUCT('"@[0] == 'P' && plain("','"@) && hook("','',(#"@)) by {
        reveal(plain);
        reveal(hook);
        reveal_strlit("PRODUCT('");
        reveal_strlit("','");
        reveal_strlit("','',(#");
    }
    assert(unused(b)) by {
        lemma_unused();
        assert(unused(h));
        assert(unused(label(h, solid, other, place).text("','"@)));
        assert(unused(m));
    }
    assert(opens_with(b, "PRODUCT('"@)) by {
        lemma_opens_on("PRODUCT('"@);
        assert(opens_with(h, "PRODUCT('"@));
        assert(opens_with(label(h, solid, other, place).text("','"@), "PRODUCT('"@));
        assert(opens_with(m, "PRODUCT('"@));
    }
    lemma_a_product(s.lines, b);
    law_references(limit);
    assert(settled(h, limit));
    assert(settled(label(h, solid, other, place).text("','"@), limit));
    assert(settled(m, limit));
    assert(hanging(m.text("','',(#"@), limit));
    lemma_neat_put(s, limit, b);
}

proof fn lemma_representation(
    s: StepState,
    solid: Solid,
    other: Seq<char>,
    place: nat,
    item: nat,
    geometry: nat,
    limit: nat,
)
    requires
        named_plainly(solid),
        plain(other),
        1 <= item <= s.counter,
        1 <= geometry <= s.counter,
        s.counter + 1 <= limit,
        neat(s, limit),
    ensures
        neat(
            s.put(
                label(Script::empty().text("SHAPE_REPRESENTATION('"@), solid, other, place).text(
                    "',(#"@,
                ).whole(item).text("),#"@).whole(geometry).text(")"@),
            ),
            limit,
        ),
        same_products(
            s,
            s.put(
                label(Script::empty().text("SHAPE_REPRESENTATION('"@), solid, other, place).text(
                    "',(#"@,
                ).whole(item).text("),#"@).whole(geometry).text(")"@),
            ),
        ),
{
    let h = Script::empty().text("SHAPE_REPRESENTATION('"@);
    let m = label(h, solid, other, place);
    let n = m.text("',(#"@).whole(item).text("),#"@);
    let b = n.whole(geometry).text(")"@);
    lemma_pieces();
    lemma_label(solid, other, place);
    assert(plain("SHAPE_REPRESENTATION('"@) && lead("SHAPE_REPRESENTATION('"@) && hook("',(#"@)
        && hook("),#"@) && opens("),#"@)) by {
        reveal(plain);
        reveal(hook);
        reveal(lead);
        reveal(opens);
        reveal_strlit("SHAPE_REPRESENTATION('");
        reveal_strlit("',(#");
        reveal_strlit("),#");
    }
    assert(aside(b)) by {
        lemma_aside();
        assert(aside(h));
        assert(aside(m));
    }
    law_references(limit);
    assert(settled(h, limit));
    assert(settled(m, limit));
    assert(hanging(m.text("',(#"@), limit));
    assert(hanging(n, limit));
    lemma_plain_put(s, limit, b);
}

proof fn lemma_part_count(
    s: StepState,
    faces: Seq<usize>,
    solid: Solid,
    other: Seq<char>,
    place: nat,
    context: nat,
    geometry: nat,
)
    ensures
        s.part(faces, solid, other, place, context, geometry).counter == s.counter + 8,
{
    reveal(StepState::part);
    reveal(StepState::manifold);
    reveal(StepState::product_shape);
}

proof fn lemma_part(
    s: StepState,
    faces: Seq<usize>,
    solid: Solid,
    other: Seq<char>,
    place: nat,
    context: nat,
    geometry: nat,
    limit: nat,
)
    requires
        named_plainly(solid),
        plain(other),
        1 <= context <= s.counter,
        1 <= geometry <= s.counter,
        s.counter + 8 <= limit <= usize::MAX,
        neat(s, limit),
        among(faces, s.counter),
    ensures
        neat(s.part(faces, solid, other, place, context, geometry), limit),
        products(s.part(faces, solid, other, place, context, geometry).lines) == products(s.lines)
            + 1,
        links(s.part(faces, solid, other, place, context, geometry).lines) == links(s.lines) + 1,
{
    reveal(StepState::part);
    let s1 = s.manifold(faces, solid, other, place);
    lemma_manifold(s, faces, solid, other, place, limit);
    let s2 = s1.put(
        label(
            label(Script::empty().text("PRODUCT('"@), solid, other, place).text("','"@),
            solid,
            other,
            place,
        ).text("','',(#"@).whole(context).text("))"@),
    );
    lemma_product(s1, solid, other, place, context, limit);
    let s3 = s2.product_shape(context);
    lemma_product_shape(s2, context, limit);
    let s4 = s3.put(
        label(Script::empty().text("SHAPE_REPRESENTATION('"@), solid, other, place).text(
            "',(#"@,
        ).whole(s1.counter).text("),#"@).whole(geometry).text(")"@),
    );
    lemma_representation(s3, solid, other, place, s1.counter, geometry, limit);
    lemma_shape_link(s4, s3.counter, s4.counter, limit);
}

/// Whether the names of some solids have no mark in them.
pub open spec fn all_named_plainly(model: Model) -> bool {
    forall|id: SolidId| #[trigger]
        model.solids.dom().contains(id) ==> named_plainly(model.solids[id])
}

proof fn lemma_solids(
    state: StepState,
    model: Model,
    ids: Seq<SolidId>,
    sheets: Seq<Vec<FaceSheet>>,
    k: int,
    limit: nat,
)
    requires
        all_named_plainly(model),
        limit <= usize::MAX,
    ensures
        ({
            let all = solids_emitted(state, model, ids, sheets, k);
            &&& state.counter <= all.state.counter
            &&& all.ids.len() == solids_named(model, ids, k)
            &&& all.state.counter <= limit && neat(state, limit) ==> neat(all.state, limit)
                && among(all.ids, all.state.counter) && same_products(state, all.state)
        }),
    decreases k,
{
    if k > 0 {
        let so_far = solids_emitted(state, model, ids, sheets, k - 1);
        let all = solids_emitted(state, model, ids, sheets, k);
        lemma_solids(state, model, ids, sheets, k - 1, limit);
        let id = ids[k - 1];
        if model.solids.dom().contains(id) {
            let faces = solid_emitted(so_far.state, model, id, sheets[k - 1]@);
            let place = (k - 1) as nat;
            let solid = model.solids[id];
            lemma_solid(so_far.state, model, id, sheets[k - 1]@);
            lemma_manifold_count(faces.state, faces.ids, solid, "solid"@, place);
            if all.state.counter <= limit && neat(state, limit) {
                assert(neat((Emitted { state: so_far.state, ids: seq![] }).state, limit));
                assert(plain("solid"@)) by {
                    reveal(plain);
                    reveal_strlit("solid");
                }
                lemma_manifold(faces.state, faces.ids, solid, "solid"@, place, limit);
                assert forall|i: int| 0 <= i < all.ids.len() implies 1 <= #[trigger] all.ids[i]
                    <= all.state.counter by {
                    if i < so_far.ids.len() {
                        assert(all.ids[i] == so_far.ids[i]);
                    }
                }
            }
        }
    }
}

proof fn lemma_manifold_count(
    s: StepState,
    faces: Seq<usize>,
    solid: Solid,
    other: Seq<char>,
    place: nat,
)
    ensures
        s.manifold(faces, solid, other, place).counter == s.counter + 2,
{
    reveal(StepState::manifold);
}

proof fn lemma_product_body(s: StepState, place: nat, context: nat, limit: nat)
    requires
        1 <= context <= s.counter,
        s.counter + 1 <= limit,
        neat(s, limit),
    ensures
        neat(s.put(product_body(place, context)), limit),
        products(s.put(product_body(place, context)).lines) == products(s.lines) + 1,
        links(s.put(product_body(place, context)).lines) == links(s.lines),
{
    let b = product_body(place, context);
    let p = "PRODUCT('"@;
    let x = "PRODUCT('cadcore_part','cadcore part','',(#"@;
    let y = "PRODUCT('cadcore_part_"@;
    let z = "','cadcore part "@;
    let h = Script::empty().text(x);
    let i = Script::empty().text(y);
    let m = i.whole(place).text(z).whole(place);
    lemma_pieces();
    assert(hook(x) && plain(y) && plain(z) && hook("','',(#"@)) by {
        reveal(plain);
        reveal(hook);
        reveal_strlit("PRODUCT('cadcore_part','cadcore part','',(#");
        reveal_strlit("PRODUCT('cadcore_part_");
        reveal_strlit("','cadcore part ");
        reveal_strlit("','',(#");
    }
    reveal_strlit("PRODUCT('");
    reveal_strlit("PRODUCT('cadcore_part','cadcore part','',(#");
    reveal_strlit("PRODUCT('cadcore_part_");
    assert(opens_with(h, p) && opens_with(i, p)) by {
        lemma_characters(x);
        lemma_characters(y);
        lemma_characters(p);
        assert(h.glyphs =~= characters(x));
        assert(i.glyphs =~= characters(y));
        assert(h.glyphs.take(p.len() as int) =~= characters(p));
        assert(i.glyphs.take(p.len() as int) =~= characters(p));
    }
    assert(opens_with(b, p)) by {
        lemma_opens_on(p);
        assert(opens_with(i.whole(place).text(z), p));
        assert(opens_with(m, p));
    }
    assert(unused(b)) by {
        lemma_unused();
        assert(unused(h) && unused(i));
        assert(unused(i.whole(place).text(z)));
        assert(unused(m));
    }
    lemma_a_product(s.lines, b);
    law_references(limit);
    assert(hanging(h, limit));
    assert(settled(i, limit));
    assert(settled(i.whole(place).text(z), limit));
    assert(settled(m, limit));
    assert(hanging(m.text("','',(#"@), limit));
    lemma_neat_put(s, limit, b);
}

proof fn lemma_products(state: StepState, context: nat, k: nat, limit: nat)
    requires
        1 <= context <= state.counter,
    ensures
        ({
            let all = products_emitted(state, context, k);
            &&& all.counter == state.counter + 4 * k
            &&& all.counter <= limit && neat(state, limit) ==> neat(all, limit) && products(
                all.lines,
            ) == products(state.lines) + k && links(all.lines) == links(state.lines)
        }),
    decreases k,
{
    if k > 0 {
        let p = (k - 1) as nat;
        let so_far = products_emitted(state, context, p);
        let s = so_far.put(product_body(p, context));
        lemma_products(state, context, p, limit);
        assert(s.product_shape(context).counter == s.counter + 3) by {
            reveal(StepState::product_shape);
        }
        if s.counter + 3 <= limit && neat(state, limit) {
            lemma_product_body(so_far, p, context, limit);
            lemma_product_shape(s, context, limit);
        }
    }
}

proof fn lemma_part_shape(s: StepState, item: nat, geometry: nat, limit: nat)
    requires
        1 <= item <= s.counter,
        1 <= geometry <= s.counter,
        s.counter + 1 <= limit,
        neat(s, limit),
    ensures
        neat(s.put(part_shape_body(item, geometry)), limit),
        same_products(s, s.put(part_shape_body(item, geometry))),
{
    let x = "SHAPE_REPRESENTATION('',(#"@;
    let h = Script::empty().text(x);
    let m = h.whole(item).text("),#"@);
    let b = m.whole(geometry).text(")"@);
    lemma_pieces();
    assert(hook(x) && lead(x) && hook("),#"@) && opens("),#"@)) by {
        reveal(hook);
        reveal(lead);
        reveal(opens);
        reveal_strlit("SHAPE_REPRESENTATION('',(#");
        reveal_strlit("),#");
    }
    assert(aside(b)) by {
        lemma_aside();
        assert(aside(h));
    }
    law_references(limit);
    assert(hanging(h, limit));
    assert(hanging(m, limit));
    lemma_plain_put(s, limit, b);
}

proof fn lemma_shapes(
    state: StepState,
    items: Seq<usize>,
    base: nat,
    geometry: nat,
    k: nat,
    limit: nat,
)
    requires
        k <= items.len(),
        among(items, state.counter),
        base + 4 * items.len() <= state.counter,
        1 <= geometry <= state.counter,
    ensures
        ({
            let all = shapes_emitted(state, items, base, geometry, k);
            &&& all.counter == state.counter + 2 * k
            &&& all.counter <= limit && neat(state, limit) ==> neat(all, limit) && products(
                all.lines,
            ) == products(state.lines) && links(all.lines) == links(state.lines) + k
        }),
    decreases k,
{
    if k > 0 {
        let so_far = shapes_emitted(state, items, base, geometry, (k - 1) as nat);
        let s = so_far.put(part_shape_body(items[k - 1] as nat, geometry));
        lemma_shapes(state, items, base, geometry, (k - 1) as nat, limit);
        assert(1 <= items[k - 1] <= state.counter);
        if s.counter + 1 <= limit && neat(state, limit) {
            lemma_part_shape(so_far, items[k - 1] as nat, geometry, limit);
            lemma_shape_link(s, base + 4 * k, s.counter, limit);
        }
    }
}

proof fn lemma_application(s: StepState, protocol: Protocol, limit: nat)
    requires
        s.counter + 3 <= limit,
        neat(s, limit),
    ensures
        neat(s.application(protocol), limit),
        same_products(s, s.application(protocol)),
        s.application(protocol).counter == s.counter + 3,
{
    reveal(StepState::application);
    let b1 = Script::empty().text(application_text(protocol));
    let s1 = s.put(b1);
    let h2 = Script::empty().text(definition_text(protocol));
    let b2 = h2.whole(s1.counter).text(")"@);
    let s2 = s1.put(b2);
    let h3 = Script::empty().text("PRODUCT_CONTEXT('',#"@);
    let b3 = h3.whole(s1.counter).text(",'mechanical')"@);
    lemma_pieces();
    assert(plain(application_text(protocol)) && lead(application_text(protocol))) by {
        reveal(plain);
        reveal(lead);
        reveal_strlit(
            "APPLICATION_CONTEXT('configuration controlled 3d designs of mechanical parts and assemblies')",
        );
        reveal_strlit("APPLICATION_CONTEXT('core data for automotive mechanical design processes')");
    }
    assert(hook(definition_text(protocol)) && lead(definition_text(protocol))) by {
        reveal(hook);
        reveal(lead);
        reveal_strlit(
            "APPLICATION_PROTOCOL_DEFINITION('international standard','config_control_design',1994,#",
        );
        reveal_strlit(
            "APPLICATION_PROTOCOL_DEFINITION('draft international standard','automotive_design',1998,#",
        );
    }
    assert(hook("PRODUCT_CONTEXT('',#"@) && lead("PRODUCT_CONTEXT('',#"@) && plain(
        ",'mechanical')"@,
    ) && opens(",'mechanical')"@)) by {
        reveal(hook);
        reveal(lead);
        reveal(plain);
        reveal(opens);
        reveal_strlit("PRODUCT_CONTEXT('',#");
        reveal_strlit(",'mechanical')");
    }
    assert(aside(b1) && aside(b2) && aside(b3)) by {
        lemma_aside();
        assert(aside(h2) && aside(h3));
    }
    law_references(limit);
    assert(hanging(h2, limit) && hanging(h3, limit));
    lemma_plain_put(s, limit, b1);
    lemma_plain_put(s1, limit, b2);
    lemma_plain_put(s2, limit, b3);
}

proof fn lemma_geometric_context(s: StepState, limit: nat)
    requires
        s.counter + 5 <= limit,
        neat(s, limit),
    ensures
        neat(s.geometric_context(), limit),
        same_products(s, s.geometric_context()),
{
    let a =
        "(GEOMETRIC_REPRESENTATION_CONTEXT(3) GLOBAL_UNCERTAINTY_ASSIGNED_CONTEXT((#"@;
    let b = ")) GLOBAL_UNIT_ASSIGNED_CONTEXT((#"@;
    let c = ")) REPRESENTATION_CONTEXT('','3D'))"@;
    let h = Script::empty().text(a);
    let h2 = h.whole(s.counter + 2).text(b);
    let h3 = h2.whole(s.counter + 3).text(",#"@);
    let h4 = h3.whole(s.counter + 4).text(",#"@);
    let body = h4.whole(s.counter + 5).text(c);
    lemma_pieces();
    assert(hook(a) && lead(a) && hook(b) && opens(b) && plain(c) && opens(c)) by {
        reveal(hook);
        reveal(lead);
        reveal(plain);
        reveal(opens);
        reveal_strlit(
            "(GEOMETRIC_REPRESENTATION_CONTEXT(3) GLOBAL_UNCERTAINTY_ASSIGNED_CONTEXT((#",
        );
        reveal_strlit(")) GLOBAL_UNIT_ASSIGNED_CONTEXT((#");
        reveal_strlit(")) REPRESENTATION_CONTEXT('','3D'))");
    }
    assert(aside(body)) by {
        lemma_aside();
        assert(aside(h));
    }
    law_references(limit);
    assert(hanging(h, limit));
    assert(hanging(h2, limit));
    assert(hanging(h3, limit));
    assert(hanging(h4, limit));
    lemma_plain_put(s, limit, body);
}

proof fn lemma_units(s: StepState, limit: nat)
    requires
        s.counter + 4 <= limit,
        neat(s, limit),
    ensures
        neat(s.units(), limit),
        same_products(s, s.units()),
        s.units().counter == s.counter + 4,
{
    reveal(StepState::units);
    let a = "UNCERTAINTY_MEASURE_WITH_UNIT(LENGTH_MEASURE(1.0E-007),#"@;
    let t = ",('',''))"@;
    let b = "(LENGTH_UNIT() NAMED_UNIT(*) SI_UNIT(.MILLI.,.METRE.))"@;
    let c = "(NAMED_UNIT(*) PLANE_ANGLE_UNIT() SI_UNIT($,.RADIAN.))"@;
    let d = "(NAMED_UNIT(*) SI_UNIT($,.STERADIAN.) SOLID_ANGLE_UNIT())"@;
    assert(hook(a) && lead(a) && plain(t) && opens(t)) by {
        reveal(hook);
        reveal(lead);
        reveal(plain);
        reveal(opens);
        reveal_strlit("UNCERTAINTY_MEASURE_WITH_UNIT(LENGTH_MEASURE(1.0E-007),#");
        reveal_strlit(",('',''))");
    }
    assert(plain(b) && lead(b) && plain(c) && lead(c) && plain(d) && lead(d)) by {
        reveal(lead);
        reveal(plain);
        reveal_strlit("(LENGTH_UNIT() NAMED_UNIT(*) SI_UNIT(.MILLI.,.METRE.))");
        reveal_strlit("(NAMED_UNIT(*) PLANE_ANGLE_UNIT() SI_UNIT($,.RADIAN.))");
        reveal_strlit("(NAMED_UNIT(*) SI_UNIT($,.STERADIAN.) SOLID_ANGLE_UNIT())");
    }
    let h = Script::empty().text(a);
    let b1 = h.whole(s.counter + 2).text(t);
    let s1 = s.put(b1);
    let s2 = s1.put(Script::empty().text(b));
    let s3 = s2.put(Script::empty().text(c));
    assert(aside(b1) && aside(Script::empty().text(b)) && aside(Script::empty().text(c)) && aside(
        Script::empty().text(d),
    )) by {
        lemma_aside();
        assert(aside(h));
    }
    law_references(limit);
    assert(hanging(h, limit));
    lemma_plain_put(s, limit, b1);
    lemma_plain_put(s1, limit, Script::empty().text(b));
    lemma_plain_put(s2, limit, Script::empty().text(c));
    lemma_plain_put(s3, limit, Script::empty().text(d));
}

/// The entities of a file of parts are in order.
proof fn lemma_part_state(model: Model, ids: Seq<SolidId>, sheets: Seq<Vec<FaceSheet>>)
    requires
        all_named_plainly(model),
        part_state(model, ids, sheets).counter <= usize::MAX,
    ensures
        neat(part_state(model, ids, sheets), part_state(model, ids, sheets).counter),
        products(part_state(model, ids, sheets).lines) == solids_named(
            model,
            ids,
            ids.len() as int,
        ),
        links(part_state(model, ids, sheets).lines) == solids_named(model, ids, ids.len() as int),
{
    let all = part_state(model, ids, sheets);
    let limit = all.counter;
    let count = ids.len() as int;
    let n = solids_named(model, ids, count);
    let s0 = StepState::start();
    let s1 = s0.application(Protocol::Ap203);
    let s2 = products_emitted(s1, s1.counter, n);
    let solids = solids_emitted(s2, model, ids, sheets, count);
    let s3 = solids.state.geometric_context();
    let s4 = s3.blank().units();
    assert(s1.counter == 3) by {
        reveal(StepState::application);
    }
    assert(s4.counter == s3.counter + 4) by {
        reveal(StepState::units);
    }
    lemma_products(s1, s1.counter, n, limit);
    lemma_solids(s2, model, ids, sheets, count, limit);
    // As many entities as there are at the end, there is room for in between.
    lemma_shapes_count(s4, solids.ids, s1.counter, s3.counter, n);
    lemma_neat_start(limit);
    lemma_application(s0, Protocol::Ap203, limit);
    lemma_no_gap_ahead(solids.state, limit, s3.counter);
    lemma_geometric_context(solids.state, limit);
    lemma_neat_blank(s3, limit);
    lemma_units(s3.blank(), limit);
    assert(among(solids.ids, s4.counter));
    lemma_shapes(s4, solids.ids, s1.counter, s3.counter, n, limit);
}

proof fn lemma_shapes_count(
    state: StepState,
    items: Seq<usize>,
    base: nat,
    geometry: nat,
    k: nat,
)
    ensures
        shapes_emitted(state, items, base, geometry, k).counter == state.counter + 2 * k,
    decreases k,
{
    if k > 0 {
        lemma_shapes_count(state, items, base, geometry, (k - 1) as nat);
    }
}

/// An entity that says a fixed text.
proof fn lemma_fixed(s: StepState, x: Seq<char>, limit: nat)
    requires
        s.counter + 1 <= limit,
        neat(s, limit),
        plain(x),
        lead(x),
    ensures
        neat(s.put(Script::empty().text(x)), limit),
{
    lemma_aside();
    law_references(limit);
    lemma_plain_put(s, limit, Script::empty().text(x));
}

proof fn lemma_assembly_ids()
    ensures
        assembly_head().counter == 18,
        assembly_ids() == (AssemblyIds {
            context: 3,
            geometry: 4,
            origin: 9,
            z: 10,
            x: 11,
            definition: 15,
            representation: 17,
        }),
{
    reveal(StepState::application);
    reveal(StepState::units);
    reveal(StepState::product_shape);
}

proof fn lemma_assembly_product(s: StepState, context: nat, limit: nat)
    requires
        1 <= context <= s.counter,
        s.counter + 1 <= limit,
        neat(s, limit),
    ensures
        neat(
            s.put(
                Script::empty().text(
                    "PRODUCT('scaffold_assembly','scaffold_assembly','',(#"@,
                ).whole(context).text("))"@),
            ),
            limit,
        ),
{
    let x = "PRODUCT('scaffold_assembly','scaffold_assembly','',(#"@;
    let h = Script::empty().text(x);
    let b = h.whole(context).text("))"@);
    lemma_pieces();
    assert(hook(x) && x.len() > 0 && x[0] == 'P') by {
        reveal(hook);
        reveal_strlit("PRODUCT('scaffold_assembly','scaffold_assembly','',(#");
    }
    assert(unused(b)) by {
        lemma_unused();
        assert(unused(h));
    }
    law_references(limit);
    assert(hanging(h, limit));
    lemma_neat_put(s, limit, b);
}

proof fn lemma_assembly_representation(s: StepState, item: nat, geometry: nat, limit: nat)
    requires
        1 <= item <= s.counter,
        1 <= geometry <= s.counter,
        s.counter + 1 <= limit,
        neat(s, limit),
    ensures
        neat(
            s.put(
                Script::empty().text("SHAPE_REPRESENTATION('scaffold_assembly',(#"@).whole(
                    item,
                ).text("),#"@).whole(geometry).text(")"@),
            ),
            limit,
        ),
{
    let x = "SHAPE_REPRESENTATION('scaffold_assembly',(#"@;
    let h = Script::empty().text(x);
    let m = h.whole(item).text("),#"@);
    let b = m.whole(geometry).text(")"@);
    lemma_pieces();
    assert(hook(x) && lead(x) && hook("),#"@) && opens("),#"@)) by {
        reveal(hook);
        reveal(lead);
        reveal(opens);
        reveal_strlit("SHAPE_REPRESENTATION('scaffold_assembly',(#");
        reveal_strlit("),#");
    }
    assert(aside(b)) by {
        lemma_aside();
        assert(aside(h));
    }
    law_references(limit);
    assert(hanging(h, limit));
    assert(hanging(m, limit));
    lemma_plain_put(s, limit, b);
}

proof fn lemma_assembly_head(limit: nat)
    requires
        18 <= limit <= usize::MAX,
    ensures
        neat(assembly_head(), limit),
{
    let s0 = StepState::start();
    let s1 = s0.application(Protocol::Ap214);
    let s2 = s1.geometric_context();
    let s3 = s2.units();
    let a = "CARTESIAN_POINT('',(0.0,0.0,0.0))"@;
    let b = "DIRECTION('',(0.0,0.0,1.0))"@;
    let c = "DIRECTION('',(1.0,0.0,0.0))"@;
    let s4 = s3.put(Script::empty().text(a));
    let s5 = s4.put(Script::empty().text(b));
    let s6 = s5.put(Script::empty().text(c));
    let s7 = s6.placement(""@, s4.counter, s5.counter, s6.counter);
    let s7b = s7.put(
        Script::empty().text("PRODUCT('scaffold_assembly','scaffold_assembly','',(#"@).whole(
            s1.counter,
        ).text("))"@),
    );
    let s8 = s7b.product_shape(s1.counter);
    let s9 = s8.put(
        Script::empty().text("SHAPE_REPRESENTATION('scaffold_assembly',(#"@).whole(
            s7.counter,
        ).text("),#"@).whole(s2.counter).text(")"@),
    );
    lemma_neat_start(limit);
    lemma_application(s0, Protocol::Ap214, limit);
    lemma_geometric_context(s1, limit);
    lemma_units(s2, limit);
    assert(plain(a) && lead(a) && plain(b) && lead(b) && plain(c) && lead(c)) by {
        reveal(plain);
        reveal(lead);
        reveal_strlit("CARTESIAN_POINT('',(0.0,0.0,0.0))");
        reveal_strlit("DIRECTION('',(0.0,0.0,1.0))");
        reveal_strlit("DIRECTION('',(1.0,0.0,0.0))");
    }
    lemma_fixed(s3, a, limit);
    lemma_fixed(s4, b, limit);
    lemma_fixed(s5, c, limit);
    lemma_pieces();
    lemma_placement(s6, ""@, s4.counter, s5.counter, s6.counter);
    lemma_assembly_product(s7, s1.counter, limit);
    lemma_product_shape(s7b, s1.counter, limit);
    lemma_assembly_representation(s8, s7.counter, s2.counter, limit);
    lemma_shape_link(s9, s8.counter, s9.counter, limit);
}

/// Whether the entities that components refer to are there.
spec fn assembly_known(assembly: AssemblyIds, counter: nat) -> bool {
    &&& 1 <= assembly.context <= counter
    &&& 1 <= assembly.geometry <= counter
    &&& 1 <= assembly.origin <= counter
    &&& 1 <= assembly.z <= counter
    &&& 1 <= assembly.x <= counter
    &&& 1 <= assembly.definition <= counter
    &&& 1 <= assembly.representation <= counter
}

proof fn lemma_usage(
    s: StepState,
    solid: Solid,
    place: nat,
    whole: nat,
    part: nat,
    limit: nat,
)
    requires
        named_plainly(solid),
        1 <= whole <= s.counter,
        1 <= part <= s.counter,
        s.counter + 1 <= limit,
        neat(s, limit),
    ensures
        neat(
            s.put(
                label(
                    Script::empty().text("NEXT_ASSEMBLY_USAGE_OCCURRENCE('"@).whole(place).text(
                        "','"@,
                    ),
                    solid,
                    "part"@,
                    place,
                ).text("','',#"@).whole(whole).text(",#"@).whole(part).text(",$)"@),
            ),
            limit,
        ),
{
    let x = "NEXT_ASSEMBLY_USAGE_OCCURRENCE('"@;
    let h = Script::empty().text(x);
    let i = h.whole(place).text("','"@);
    let m = label(i, solid, "part"@, place);
    let n = m.text("','',#"@).whole(whole).text(",#"@);
    let b = n.whole(part).text(",$)"@);
    lemma_pieces();
    assert(plain(x) && lead(x) && plain("','"@) && hook("','',#"@) && plain(",$)"@) && opens(
        ",$)"@,
    ) && plain("part"@)) by {
        reveal(plain);
        reveal(hook);
        reveal(lead);
        reveal(opens);
        reveal_strlit("NEXT_ASSEMBLY_USAGE_OCCURRENCE('");
        reveal_strlit("','");
        reveal_strlit("','',#");
        reveal_strlit(",$)");
        reveal_strlit("part");
    }
    lemma_label(solid, "part"@, place);
    assert(aside(b)) by {
        lemma_aside();
        assert(aside(h));
        assert(aside(i));
        assert(aside(m));
    }
    law_references(limit);
    assert(settled(h, limit));
    assert(settled(h.whole(place), limit));
    assert(settled(i, limit));
    assert(settled(m, limit));
    assert(hanging(m.text("','',#"@), limit));
    assert(hanging(n, limit));
    lemma_plain_put(s, limit, b);
}

proof fn lemma_transformation(s: StepState, from: nat, to: nat, limit: nat)
    requires
        1 <= from <= s.counter,
        1 <= to <= s.counter,
        s.counter + 1 <= limit,
        neat(s, limit),
    ensures
        neat(
            s.put(
                Script::empty().text("ITEM_DEFINED_TRANSFORMATION('','',#"@).whole(from).text(
                    ",#"@,
                ).whole(to).text(")"@),
            ),
            limit,
        ),
{
    let x = "ITEM_DEFINED_TRANSFORMATION('','',#"@;
    let h = Script::empty().text(x);
    let m = h.whole(from).text(",#"@);
    let b = m.whole(to).text(")"@);
    lemma_pieces();
    assert(hook(x) && lead(x)) by {
        reveal(hook);
        reveal(lead);
        reveal_strlit("ITEM_DEFINED_TRANSFORMATION('','',#");
    }
    assert(aside(b)) by {
        lemma_aside();
        assert(aside(h));
    }
    law_references(limit);
    assert(hanging(h, limit));
    assert(hanging(m, limit));
    lemma_plain_put(s, limit, b);
}

proof fn lemma_relationship(s: StepState, one: nat, other: nat, by_way_of: nat, limit: nat)
    requires
        1 <= one <= s.counter,
        1 <= other <= s.counter,
        1 <= by_way_of <= s.counter,
        s.counter + 1 <= limit,
        neat(s, limit),
    ensures
        neat(
            s.put(
                Script::empty().text("(REPRESENTATION_RELATIONSHIP('','',#"@).whole(one).text(
                    ",#"@,
                ).whole(other).text(
                    ") REPRESENTATION_RELATIONSHIP_WITH_TRANSFORMATION(#"@,
                ).whole(by_way_of).text(") SHAPE_REPRESENTATION_RELATIONSHIP())"@),
            ),
            limit,
        ),
{
    let x = "(REPRESENTATION_RELATIONSHIP('','',#"@;
    let y = ") REPRESENTATION_RELATIONSHIP_WITH_TRANSFORMATION(#"@;
    let z = ") SHAPE_REPRESENTATION_RELATIONSHIP())"@;
    let h = Script::empty().text(x);
    let m = h.whole(one).text(",#"@);
    let n = m.whole(other).text(y);
    let b = n.whole(by_way_of).text(z);
    lemma_pieces();
    assert(hook(x) && lead(x) && hook(y) && opens(y) && plain(z) && opens(z)) by {
        reveal(plain);
        reveal(hook);
        reveal(lead);
        reveal(opens);
        reveal_strlit("(REPRESENTATION_RELATIONSHIP('','',#");
        reveal_strlit(") REPRESENTATION_RELATIONSHIP_WITH_TRANSFORMATION(#");
        reveal_strlit(") SHAPE_REPRESENTATION_RELATIONSHIP())");
    }
    assert(aside(b)) by {
        lemma_aside();
        assert(aside(h));
    }
    law_references(limit);
    assert(hanging(h, limit));
    assert(hanging(m, limit));
    assert(hanging(n, limit));
    lemma_plain_put(s, limit, b);
}

proof fn lemma_in_context(s: StepState, relation: nat, usage: nat, limit: nat)
    requires
        1 <= relation <= s.counter,
        1 <= usage <= s.counter,
        s.counter + 1 <= limit,
        neat(s, limit),
    ensures
        neat(
            s.put(
                Script::empty().text("CONTEXT_DEPENDENT_SHAPE_REPRESENTATION(#"@).whole(
                    relation,
                ).text(",#"@).whole(usage).text(")"@),
            ),
            limit,
        ),
{
    let x = "CONTEXT_DEPENDENT_SHAPE_REPRESENTATION(#"@;
    let h = Script::empty().text(x);
    let m = h.whole(relation).text(",#"@);
    let b = m.whole(usage).text(")"@);
    lemma_pieces();
    assert(hook(x) && lead(x)) by {
        reveal(hook);
        reveal(lead);
        reveal_strlit("CONTEXT_DEPENDENT_SHAPE_REPRESENTATION(#");
    }
    assert(aside(b)) by {
        lemma_aside();
        assert(aside(h));
    }
    law_references(limit);
    assert(hanging(h, limit));
    assert(hanging(m, limit));
    lemma_plain_put(s, limit, b);
}

proof fn lemma_component_count(
    s: StepState,
    faces: Seq<usize>,
    solid: Solid,
    place: nat,
    assembly: AssemblyIds,
)
    ensures
        s.component(faces, solid, place, assembly).counter == s.counter + 14,
{
    reveal(StepState::component);
    lemma_part_count(
        s,
        faces,
        solid,
        "part"@,
        place,
        assembly.context as nat,
        assembly.geometry as nat,
    );
}

proof fn lemma_component(
    s: StepState,
    faces: Seq<usize>,
    solid: Solid,
    place: nat,
    assembly: AssemblyIds,
    limit: nat,
)
    requires
        named_plainly(solid),
        assembly_known(assembly, s.counter),
        s.counter + 14 <= limit <= usize::MAX,
        neat(s, limit),
        among(faces, s.counter),
    ensures
        neat(s.component(faces, solid, place, assembly), limit),
{
    reveal(StepState::component);
    let context = assembly.context as nat;
    let geometry = assembly.geometry as nat;
    let s5 = s.part(faces, solid, "part"@, place, context, geometry);
    let definition = (s5.counter - 3) as nat;
    let representation = (s5.counter - 1) as nat;
    assert(plain("part"@)) by {
        reveal(plain);
        reveal_strlit("part");
    }
    lemma_pieces();
    lemma_part_count(s, faces, solid, "part"@, place, context, geometry);
    lemma_part(s, faces, solid, "part"@, place, context, geometry, limit);
    let s6 = s5.put(
        label(
            Script::empty().text("NEXT_ASSEMBLY_USAGE_OCCURRENCE('"@).whole(place).text("','"@),
            solid,
            "part"@,
            place,
        ).text("','',#"@).whole(assembly.definition as nat).text(",#"@).whole(definition).text(
            ",$)"@,
        ),
    );
    lemma_usage(s5, solid, place, assembly.definition as nat, definition, limit);
    let s7 = s6.placement(""@, assembly.origin as nat, assembly.z as nat, assembly.x as nat);
    lemma_placement(s6, ""@, assembly.origin as nat, assembly.z as nat, assembly.x as nat);
    let s8 = s7.placement(""@, assembly.origin as nat, assembly.z as nat, assembly.x as nat);
    lemma_placement(s7, ""@, assembly.origin as nat, assembly.z as nat, assembly.x as nat);
    assert(neat(s7, limit));
    assert(neat(s8, limit));
    let s9 = s8.put(
        Script::empty().text("ITEM_DEFINED_TRANSFORMATION('','',#"@).whole(s7.counter).text(
            ",#"@,
        ).whole(s8.counter).text(")"@),
    );
    lemma_transformation(s8, s7.counter, s8.counter, limit);
    let s10 = s9.put(
        Script::empty().text("(REPRESENTATION_RELATIONSHIP('','',#"@).whole(
            representation,
        ).text(",#"@).whole(assembly.representation as nat).text(
            ") REPRESENTATION_RELATIONSHIP_WITH_TRANSFORMATION(#"@,
        ).whole(s9.counter).text(") SHAPE_REPRESENTATION_RELATIONSHIP())"@),
    );
    lemma_relationship(
        s9,
        representation,
        assembly.representation as nat,
        s9.counter,
        limit,
    );
    lemma_in_context(s10, s10.counter, s6.counter, limit);
}

proof fn lemma_components(
    state: StepState,
    model: Model,
    ids: Seq<SolidId>,
    sheets: Seq<Vec<FaceSheet>>,
    assembly: AssemblyIds,
    k: int,
    limit: nat,
)
    requires
        all_named_plainly(model),
        assembly_known(assembly, state.counter),
        neat(state, limit),
        limit <= usize::MAX,
    ensures
        state.counter <= components_emitted(state, model, ids, sheets, assembly, k).counter,
        components_emitted(state, model, ids, sheets, assembly, k).counter <= limit ==> neat(
            components_emitted(state, model, ids, sheets, assembly, k),
            limit,
        ),
    decreases k,
{
    if k > 0 {
        let so_far = components_emitted(state, model, ids, sheets, assembly, k - 1);
        let all = components_emitted(state, model, ids, sheets, assembly, k);
        lemma_components(state, model, ids, sheets, assembly, k - 1, limit);
        let id = ids[k - 1];
        if model.solids.dom().contains(id) {
            let faces = solid_emitted(so_far, model, id, sheets[k - 1]@);
            let place = (k - 1) as nat;
            lemma_solid(so_far, model, id, sheets[k - 1]@);
            lemma_component_count(faces.state, faces.ids, model.solids[id], place, assembly);
            if all.counter <= limit {
                assert(neat((Emitted { state: so_far, ids: seq![] }).state, limit));
                if faces.ids.len() > 0 {
                    lemma_component(
                        faces.state,
                        faces.ids,
                        model.solids[id],
                        place,
                        assembly,
                        limit,
                    );
                }
            }
        }
    }
}

/// The entities of a file of an assembly are in order.
proof fn lemma_assembly_state(model: Model, ids: Seq<SolidId>, sheets: Seq<Vec<FaceSheet>>)
    requires
        all_named_plainly(model),
        assembly_state(model, ids, sheets).counter <= usize::MAX,
    ensures
        neat(assembly_state(model, ids, sheets), assembly_state(model, ids, sheets).counter),
{
    let n = ids.len() as int;
    let limit = assembly_state(model, ids, sheets).counter;
    lemma_assembly_ids();
    lemma_assembly_head(18);
    lemma_components(assembly_head(), model, ids, sheets, assembly_ids(), n, 18);
    lemma_assembly_head(limit);
    lemma_components(assembly_head(), model, ids, sheets, assembly_ids(), n, limit);
}

/// Whether every mark in a text begins a reference to one of the numbers from
/// one to a limit.
pub open spec fn sure(text: Seq<Glyph>, limit: nat) -> bool {
    forall|i: int|
        0 <= i < text.len() && #[trigger] text[i] == mark() ==> refers(text, i, limit)
}

proof fn lemma_reads_within(before: Seq<Glyph>, text: Seq<Glyph>, after: Seq<Glyph>, at: int, n: nat)
    requires
        reads(text, at, n),
    ensures
        reads(before + text + after, before.len() + at, n),
{
    let all = before + text + after;
    let digits = characters(decimal(n));
    let from = before.len() + at;
    assert(all.subrange(from, from + digits.len()) =~= text.subrange(at, at + digits.len()));
}

proof fn lemma_sure_add(a: Seq<Glyph>, b: Seq<Glyph>, limit: nat)
    requires
        sure(a, limit),
        sure(b, limit),
    ensures
        sure(a + b, limit),
{
    let all = a + b;
    let no: Seq<Glyph> = seq![];
    assert forall|i: int| 0 <= i < all.len() && #[trigger] all[i] == mark() implies refers(
        all,
        i,
        limit,
    ) by {
        if i < a.len() {
            assert(a[i] == mark());
            let n = choose|n: nat| 1 <= n <= limit && #[trigger] reads(a, i + 1, n);
            lemma_reads_within(no, a, b, i + 1, n);
            assert(no + a + b =~= all);
            assert(reads(all, i + 1, n));
        } else {
            let k = i - a.len();
            assert(b[k] == mark());
            let n = choose|n: nat| 1 <= n <= limit && #[trigger] reads(b, k + 1, n);
            lemma_reads_within(a, b, no, k + 1, n);
            assert(a + b + no =~= all);
            assert(reads(all, i + 1, n));
        }
    }
}

proof fn lemma_sure_text(x: Seq<char>, limit: nat)
    requires
        plain(x),
    ensures
        sure(characters(x), limit),
{
    law_references(limit);
    assert(settled(Script::empty().text(x), limit));
    reveal(settled);
    assert(Script::empty().text(x).glyphs =~= characters(x));
}

proof fn lemma_sure_line(id: nat, body: Script, gap: bool, limit: nat)
    requires
        1 <= id <= limit,
        settled(body, limit),
    ensures
        sure(spaced_line(id, body, gap), limit),
{
    reveal(settled);
    let d = characters(decimal(id));
    let e = characters(" = "@);
    let m = characters("#"@);
    let g = m + d + e;
    let t = characters(";\n"@);
    reveal_strlit("#");
    reveal_strlit(" = ");
    reveal_strlit(";\n");
    lemma_characters("#"@);
    lemma_characters(" = "@);
    lemma_characters(decimal(id));
    lemma_digits(id);
    assert(sure(g, limit)) by {
        assert forall|i: int| 0 <= i < g.len() && #[trigger] g[i] == mark() implies refers(
            g,
            i,
            limit,
        ) by {
            if i == 0 {
                assert(g.subrange(1, 1 + d.len() as int) =~= d);
                assert(g[1 + d.len() as int] == e[0]);
                assert(reads(g, 1, id));
            } else if i < 1 + d.len() {
                assert(g[i] == d[i - 1]);
                assert('0' <= decimal(id)[i - 1] <= '9');
            } else {
                assert(g[i] == e[i - 1 - d.len()]);
            }
        }
    }
    assert(plain(";\n"@)) by {
        reveal(plain);
    }
    lemma_sure_text(";\n"@, limit);
    lemma_sure_add(g, body.glyphs, limit);
    lemma_sure_add(g + body.glyphs, t, limit);
    assert(entity_line(id, body) =~= g + body.glyphs + t);
    assert(plain("\n"@)) by {
        reveal(plain);
        reveal_strlit("\n");
    }
    lemma_sure_text("\n"@, limit);
    let no: Seq<Glyph> = seq![];
    assert(sure(no, limit));
    lemma_sure_add(
        entity_line(id, body),
        if gap {
            characters("\n"@)
        } else {
            no
        },
        limit,
    );
}

proof fn lemma_sure_lines(lines: Seq<Script>, gaps: Set<nat>, limit: nat)
    requires
        lines.len() <= limit,
        forall|k: int| 0 <= k < lines.len() ==> settled(#[trigger] lines[k], limit),
    ensures
        sure(rendered(lines, gaps), limit),
    decreases lines.len(),
{
    if lines.len() > 0 {
        assert forall|k: int| 0 <= k < lines.len() - 1 implies settled(
            #[trigger] lines.drop_last()[k],
            limit,
        ) by {
            assert(lines.drop_last()[k] == lines[k]);
        }
        lemma_sure_lines(lines.drop_last(), gaps, limit);
        assert(settled(lines[lines.len() - 1], limit));
        lemma_sure_line(lines.len(), lines.last(), gaps.contains(lines.len()), limit);
        lemma_sure_add(
            rendered(lines.drop_last(), gaps),
            spaced_line(lines.len(), lines.last(), gaps.contains(lines.len())),
            limit,
        );
    }
}

proof fn lemma_sure_head(description: Seq<char>, protocol: Protocol, limit: nat)
    requires
        plain(description),
    ensures
        sure(file_head(description, protocol), limit),
        sure(file_tail(), limit),
{
    let a = "ISO-10303-21;\nHEADER;\n  FILE_DESCRIPTION(('"@;
    let b =
        "'),'2;1');\n  FILE_NAME('','',(''),(''),'cadcore 0.1','','');\n  FILE_SCHEMA(('"@;
    let c = "'));\nENDSEC;\nDATA;\n"@;
    let t = "ENDSEC;\nEND-ISO-10303-21;\n"@;
    assert(plain(a) && plain(b) && plain(c) && plain(t) && plain(schema_text(protocol))) by {
        reveal(plain);
        reveal_strlit("ISO-10303-21;\nHEADER;\n  FILE_DESCRIPTION(('");
        reveal_strlit(
            "'),'2;1');\n  FILE_NAME('','',(''),(''),'cadcore 0.1','','');\n  FILE_SCHEMA(('",
        );
        reveal_strlit("'));\nENDSEC;\nDATA;\n");
        reveal_strlit("ENDSEC;\nEND-ISO-10303-21;\n");
        reveal_strlit("CONFIG_CONTROL_DESIGN");
        reveal_strlit("AUTOMOTIVE_DESIGN { 1 0 10303 214 1 1 1 1 }");
    }
    law_references(limit);
    let head = Script::empty().text(a).text(description).text(b).text(
        schema_text(protocol),
    ).text(c);
    assert(settled(head, limit));
    assert(settled(Script::empty().text(t), limit));
    reveal(settled);
}

/// Whether a text defines a number at a place: there is a mark at the start of a
/// line, and the number after it.
pub open spec fn defines(text: Seq<Glyph>, p: int, n: nat) -> bool {
    &&& 0 <= p < text.len()
    &&& text[p] == mark()
    &&& p == 0 || text[p - 1] == newline()
    &&& reads(text, p + 1, n)
}

/// Whether a text defines a number at one place and no other.
pub open spec fn defined_once(text: Seq<Glyph>, n: nat) -> bool {
    exists|p: int| #[trigger]
        defines(text, p, n) && forall|q: int| #[trigger] defines(text, q, n) ==> q == p
}

/// Where the line of an entity starts.
#[verifier::opaque]
spec fn line_start(lines: Seq<Script>, gaps: Set<nat>, k: int) -> int {
    rendered(lines.take(k), gaps).len() as int
}

/// A text has one number at a place.
proof fn lemma_reads_unambiguous(text: Seq<Glyph>, at: int, n: nat, m: nat)
    requires
        reads(text, at, n),
        reads(text, at, m),
    ensures
        n == m,
{
    let a = decimal(n);
    let b = decimal(m);
    let ca = characters(a);
    let cb = characters(b);
    lemma_characters(a);
    lemma_characters(b);
    lemma_digits(n);
    lemma_digits(m);
    assert forall|i: int| 0 <= i < a.len() implies text[at + i] == Glyph::Char(
        #[trigger] a[i] as u32,
    ) by {
        assert(text.subrange(at, at + ca.len())[i] == ca[i]);
    }
    assert forall|i: int| 0 <= i < b.len() implies text[at + i] == Glyph::Char(
        #[trigger] b[i] as u32,
    ) by {
        assert(text.subrange(at, at + cb.len())[i] == cb[i]);
    }
    if a.len() < b.len() {
        assert('0' <= b[a.len() as int] <= '9');
        assert(is_digit(text[at + ca.len()]));
    }
    if b.len() < a.len() {
        assert('0' <= a[b.len() as int] <= '9');
        assert(is_digit(text[at + cb.len()]));
    }
    assert(a =~= b) by {
        assert forall|i: int| 0 <= i < a.len() implies a[i] == b[i] by {
            assert('0' <= a[i] <= '9' && '0' <= b[i] <= '9');
            assert(text[at + i] == Glyph::Char(a[i] as u32));
            assert(text[at + i] == Glyph::Char(b[i] as u32));
        }
    }
    law_decimal_is_unambiguous(n, m);
}

/// A line begins with its number, ends the line, and has no other mark at the
/// start of a line.
proof fn lemma_one_line(id: nat, body: Script, gap: bool, limit: nat)
    requires
        settled(body, limit),
    ensures
        ({
            let line = spaced_line(id, body, gap);
            &&& line.len() > 1
            &&& line[0] == mark()
            &&& reads(line, 1, id)
            &&& line.last() == newline()
            &&& forall|i: int|
                0 < i < line.len() && #[trigger] line[i] == mark() ==> line[i - 1] != newline()
        }),
{
    reveal(settled);
    let line = spaced_line(id, body, gap);
    let d = characters(decimal(id));
    let e = characters(" = "@);
    let m = characters("#"@);
    let g = m + d + e;
    let t = characters(";\n"@) + (if gap {
        characters("\n"@)
    } else {
        seq![]
    });
    reveal_strlit("\n");
    lemma_characters("\n"@);
    reveal_strlit("#");
    reveal_strlit(" = ");
    reveal_strlit(";\n");
    lemma_characters("#"@);
    lemma_characters(" = "@);
    lemma_characters(";\n"@);
    lemma_characters(decimal(id));
    lemma_digits(id);
    assert(line =~= g + body.glyphs + t);
    assert(line.subrange(1, 1 + d.len() as int) =~= d);
    assert(line[1 + d.len() as int] == e[0]);
    assert forall|i: int| 0 < i < line.len() && #[trigger] line[i] == mark() implies line[i - 1]
        != newline() by {
        if i < 1 + d.len() {
            assert(line[i] == d[i - 1]);
            assert('0' <= decimal(id)[i - 1] <= '9');
        } else if i < g.len() {
            assert(line[i] == e[i - 1 - d.len()]);
        } else if i < g.len() + body.glyphs.len() {
            let k = i - g.len();
            assert(body.glyphs[k] == mark());
            assert(k > 0);
            assert(line[i - 1] == body.glyphs[k - 1]);
        } else {
            assert(line[i] == t[i - g.len() - body.glyphs.len()]);
        }
    }
    assert(line.last() == t[t.len() - 1]);
}

/// The marks at the start of a line are where lines start.
proof fn lemma_line_starts(lines: Seq<Script>, gaps: Set<nat>, limit: nat)
    requires
        forall|k: int| 0 <= k < lines.len() ==> settled(#[trigger] lines[k], limit),
    ensures
        lines.len() > 0 ==> rendered(lines, gaps).len() > 0 && rendered(lines, gaps).last() == newline(),
        forall|k: int|
            0 <= k < lines.len() ==> defines(
                rendered(lines, gaps),
                #[trigger] line_start(lines, gaps, k),
                (k + 1) as nat,
            ),
        forall|p: int|
            0 <= p < rendered(lines, gaps).len() && #[trigger] rendered(lines, gaps)[p] == mark() && (p == 0
                || rendered(lines, gaps)[p - 1] == newline()) ==> exists|k: int|
                0 <= k < lines.len() && p == #[trigger] line_start(lines, gaps, k),
    decreases lines.len(),
{
    if lines.len() > 0 {
        let n = lines.len() as int;
        let rest = lines.drop_last();
        let before = rendered(rest, gaps);
        let line = spaced_line(lines.len(), lines.last(), gaps.contains(lines.len()));
        let all = rendered(lines, gaps);
        let no: Seq<Glyph> = seq![];
        assert forall|k: int| 0 <= k < rest.len() implies settled(#[trigger] rest[k], limit) by {
            assert(rest[k] == lines[k]);
        }
        assert forall|k: int| 0 <= k < rest.len() implies #[trigger] line_start(lines, gaps, k)
            == line_start(rest, gaps, k) by {
            reveal(line_start);
            assert(rest.take(k) =~= lines.take(k));
        }
        assert(line_start(lines, gaps, n - 1) == before.len()) by {
            reveal(line_start);
            assert(lines.take(n - 1) =~= rest);
        }
        assert(all == before + line);
        assert(settled(lines[n - 1], limit));
        lemma_line_starts(rest, gaps, limit);
        lemma_one_line(lines.len(), lines.last(), gaps.contains(lines.len()), limit);
        assert(all.last() == line.last());
        assert forall|k: int| 0 <= k < lines.len() implies defines(
            all,
            #[trigger] line_start(lines, gaps, k),
            (k + 1) as nat,
        ) by {
            let p = line_start(lines, gaps, k);
            if k < n - 1 {
                assert(line_start(rest, gaps, k) == p);
                assert(defines(before, p, (k + 1) as nat));
                lemma_reads_within(no, before, line, p + 1, (k + 1) as nat);
                assert(no + before + line =~= all);
            } else {
                assert(p == before.len());
                lemma_reads_within(before, line, no, 1, lines.len());
                assert(before + line + no =~= all);
                if n > 1 {
                    assert(all[p - 1] == before.last());
                } else {
                    assert(before.len() == 0);
                }
            }
        }
        assert forall|p: int|
            0 <= p < all.len() && #[trigger] all[p] == mark() && (p == 0 || all[p - 1]
                == newline()) implies exists|k: int|
            0 <= k < lines.len() && p == #[trigger] line_start(lines, gaps, k) by {
            if p < before.len() {
                assert(before[p] == mark());
                let k = choose|k: int|
                    0 <= k < rest.len() && p == #[trigger] line_start(rest, gaps, k);
                assert(line_start(lines, gaps, k) == p);
            } else {
                let i = p - before.len();
                assert(line[i] == mark());
                if i > 0 {
                    assert(all[p - 1] == line[i - 1]);
                }
                assert(line_start(lines, gaps, n - 1) == p);
            }
        }
    }
}

proof fn lemma_plain_head(description: Seq<char>, protocol: Protocol)
    requires
        plain(description),
    ensures
        forall|i: int|
            0 <= i < file_head(description, protocol).len() ==> #[trigger] file_head(
                description,
                protocol,
            )[i] != mark(),
        forall|i: int| 0 <= i < file_tail().len() ==> #[trigger] file_tail()[i] != mark(),
        file_head(description, protocol).len() > 0,
        file_head(description, protocol).last() == newline(),
{
    // No number is up to nothing, so there is no reference, and no mark.
    lemma_sure_head(description, protocol, 0);
    let c = "'));\nENDSEC;\nDATA;\n"@;
    reveal_strlit("'));\nENDSEC;\nDATA;\n");
    lemma_characters(c);
    let head = file_head(description, protocol);
    assert(head.last() == characters(c)[c.len() - 1]);
}

/// Each number of a line is defined once.
proof fn lemma_defined_once(
    head: Seq<Glyph>,
    lines: Seq<Script>,
    gaps: Set<nat>,
    tail: Seq<Glyph>,
    limit: nat,
)
    requires
        forall|i: int| 0 <= i < head.len() ==> #[trigger] head[i] != mark(),
        forall|i: int| 0 <= i < tail.len() ==> #[trigger] tail[i] != mark(),
        head.len() > 0,
        head.last() == newline(),
        forall|k: int| 0 <= k < lines.len() ==> settled(#[trigger] lines[k], limit),
    ensures
        forall|n: nat|
            1 <= n <= lines.len() ==> #[trigger] defined_once(head + rendered(lines, gaps) + tail, n),
        forall|p: int, n: nat| #[trigger]
            defines(head + rendered(lines, gaps) + tail, p, n) ==> 1 <= n <= lines.len(),
{
    let mid = rendered(lines, gaps);
    let all = head + mid + tail;
    lemma_line_starts(lines, gaps, limit);
    assert forall|k: int| 0 <= k < lines.len() implies defines(
        all,
        head.len() + #[trigger] line_start(lines, gaps, k),
        (k + 1) as nat,
    ) by {
        let p = line_start(lines, gaps, k);
        assert(defines(mid, p, (k + 1) as nat));
        lemma_reads_within(head, mid, tail, p + 1, (k + 1) as nat);
        assert(all[head.len() + p] == mid[p]);
        if p == 0 {
            assert(all[head.len() - 1] == head.last());
        } else {
            assert(all[head.len() + p - 1] == mid[p - 1]);
        }
    }
    assert forall|p: int, n: nat| #[trigger] defines(all, p, n) implies 1 <= n <= lines.len() && p
        == head.len() + line_start(lines, gaps, n - 1) by {
        if p < head.len() {
            assert(all[p] == head[p]);
        } else if p >= head.len() + mid.len() {
            assert(all[p] == tail[p - head.len() - mid.len()]);
        } else {
            let i = p - head.len();
            assert(all[p] == mid[i]);
            if i > 0 {
                assert(all[p - 1] == mid[i - 1]);
            }
            let k = choose|k: int| 0 <= k < lines.len() && i == #[trigger] line_start(lines, gaps, k);
            assert(defines(all, head.len() + line_start(lines, gaps, k), (k + 1) as nat));
            lemma_reads_unambiguous(all, p + 1, n, (k + 1) as nat);
        }
    }
    assert forall|n: nat| 1 <= n <= lines.len() implies #[trigger] defined_once(all, n) by {
        let p = head.len() + line_start(lines, gaps, n - 1);
        assert(defines(all, p, n));
        assert forall|q: int| #[trigger] defines(all, q, n) implies q == p by {}
    }
}

/// Whether a file holds entities that are numbered from one up and refer to
/// each other: the text between head and tail is one line for each (and an empty
/// line after some), each number
/// is defined at the start of one line and no other number is, and every `#` in
/// the file is followed by one of these numbers.
pub open spec fn ids_count_up(whole: Seq<Glyph>, head: Seq<Glyph>, s: StepState) -> bool {
    &&& s.lines.len() == s.counter
    &&& whole == head + rendered(s.lines, s.gaps) + file_tail()
    &&& forall|n: nat| 1 <= n <= s.counter ==> #[trigger] defined_once(whole, n)
    &&& forall|p: int, n: nat| #[trigger] defines(whole, p, n) ==> 1 <= n <= s.counter
    &&& sure(whole, s.counter)
}

proof fn lemma_ids_count_up(description: Seq<char>, protocol: Protocol, s: StepState)
    requires
        plain(description),
        neat(s, s.counter),
    ensures
        ids_count_up(
            file(description, protocol, s),
            file_head(description, protocol),
            s,
        ),
{
    let n = s.counter;
    let head = file_head(description, protocol);
    reveal(neat);
    lemma_sure_head(description, protocol, n);
    lemma_sure_lines(s.lines, s.gaps, n);
    lemma_sure_add(head, rendered(s.lines, s.gaps), n);
    lemma_sure_add(head + rendered(s.lines, s.gaps), file_tail(), n);
    lemma_plain_head(description, protocol);
    lemma_defined_once(head, s.lines, s.gaps, file_tail(), n);
}

/// In a file of parts the ids that are defined are those from one up, each
/// once, and every reference is to one of them. No solid's name may hold a `#`.
pub proof fn law_ids_count_up(model: Model, ids: Seq<SolidId>, sheets: Seq<Vec<FaceSheet>>)
    requires
        all_named_plainly(model),
        part_state(model, ids, sheets).counter <= usize::MAX,
    ensures
        ids_count_up(
            file("cadcore B-Rep export"@, Protocol::Ap203, part_state(model, ids, sheets)),
            file_head("cadcore B-Rep export"@, Protocol::Ap203),
            part_state(model, ids, sheets),
        ),
{
    lemma_part_state(model, ids, sheets);
    assert(plain("cadcore B-Rep export"@)) by {
        reveal(plain);
        reveal_strlit("cadcore B-Rep export");
    }
    lemma_ids_count_up(
        "cadcore B-Rep export"@,
        Protocol::Ap203,
        part_state(model, ids, sheets),
    );
}

/// A file of parts has one `PRODUCT` and one `SHAPE_DEFINITION_REPRESENTATION` for
/// every solid that is written. No solid's name may hold a `#`.
pub proof fn law_one_product_per_solid(
    model: Model,
    ids: Seq<SolidId>,
    sheets: Seq<Vec<FaceSheet>>,
)
    requires
        all_named_plainly(model),
        part_state(model, ids, sheets).counter <= usize::MAX,
    ensures
        products(part_state(model, ids, sheets).lines) == solids_named(
            model,
            ids,
            ids.len() as int,
        ),
        links(part_state(model, ids, sheets).lines) == solids_named(model, ids, ids.len() as int),
        (forall|i: int| 0 <= i < ids.len() ==> model.solids.dom().contains(#[trigger] ids[i]))
            ==> solids_named(model, ids, ids.len() as int) == ids.len(),
{
    lemma_part_state(model, ids, sheets);
    if forall|i: int| 0 <= i < ids.len() ==> model.solids.dom().contains(#[trigger] ids[i]) {
        lemma_all_named(model, ids, ids.len() as int);
    }
}

proof fn lemma_all_named(model: Model, ids: Seq<SolidId>, k: int)
    requires
        0 <= k <= ids.len(),
        forall|i: int| 0 <= i < ids.len() ==> model.solids.dom().contains(#[trigger] ids[i]),
    ensures
        solids_named(model, ids, k) == k,
    decreases k,
{
    if k > 0 {
        lemma_all_named(model, ids, k - 1);
        assert(model.solids.dom().contains(ids[k - 1]));
    }
}

/// What comes after the number in a product's line.
spec fn after_number(place: nat, context: nat) -> Seq<Glyph> {
    characters("','cadcore part "@) + characters(decimal(place)) + characters("','',(#"@)
        + characters(decimal(context)) + characters("))"@)
}

/// A numbered product: its beginning, the number, and the rest.
proof fn lemma_product_text(place: nat, context: nat)
    requires
        place > 0,
    ensures
        product_body(place, context).glyphs == characters("PRODUCT('cadcore_part_"@)
            + characters(decimal(place)) + after_number(place, context),
        after_number(place, context).len() > 0,
        after_number(place, context)[0] == Glyph::Char('\'' as u32),
{
    let z = "','cadcore part "@;
    reveal_strlit("','cadcore part ");
    lemma_characters(z);
    assert(after_number(place, context)[0] == characters(z)[0]);
    assert(product_body(place, context).glyphs =~= characters("PRODUCT('cadcore_part_"@)
        + characters(decimal(place)) + after_number(place, context));
}

/// The products of a file of parts are all different.
pub proof fn law_products_are_unique(place1: nat, place2: nat, context: nat)
    requires
        product_body(place1, context) == product_body(place2, context),
    ensures
        place1 == place2,
{
    let x = "PRODUCT('cadcore_part','cadcore part','',(#"@;
    let y = "PRODUCT('cadcore_part_"@;
    reveal_strlit("PRODUCT('cadcore_part','cadcore part','',(#");
    reveal_strlit("PRODUCT('cadcore_part_");
    lemma_characters(x);
    lemma_characters(y);
    let n = y.len() as int;
    let g1 = product_body(place1, context).glyphs;
    let g2 = product_body(place2, context).glyphs;
    if place1 > 0 {
        lemma_product_text(place1, context);
        assert(g1[n - 1] == characters(y)[n - 1]);
    } else {
        assert(g1[n - 1] == characters(x)[n - 1]);
    }
    if place2 > 0 {
        lemma_product_text(place2, context);
        assert(g2[n - 1] == characters(y)[n - 1]);
    } else {
        assert(g2[n - 1] == characters(x)[n - 1]);
    }
    assert(y[n - 1] == '_' && x[n - 1] == '\'');
    if place1 > 0 && place2 > 0 {
        let d1 = characters(decimal(place1));
        let d2 = characters(decimal(place2));
        let r1 = after_number(place1, context);
        let r2 = after_number(place2, context);
        lemma_characters(decimal(place1));
        lemma_characters(decimal(place2));
        assert(g1.subrange(n, n + d1.len()) =~= d1);
        assert(g2.subrange(n, n + d2.len()) =~= d2);
        assert(g1[n + d1.len()] == r1[0]);
        assert(g2[n + d2.len()] == r2[0]);
        assert(reads(g1, n, place1));
        assert(reads(g2, n, place2));
        lemma_reads_unambiguous(g1, n, place1, place2);
    }
}

/// In a file of an assembly the ids that are defined are those from one up, each
/// once, and every reference is to one of them. No solid's name may hold a `#`.
pub proof fn law_assembly_ids_count_up(
    model: Model,
    ids: Seq<SolidId>,
    sheets: Seq<Vec<FaceSheet>>,
)
    requires
        all_named_plainly(model),
        assembly_state(model, ids, sheets).counter <= usize::MAX,
    ensures
        ids_count_up(
            file(
                "cadcore B-Rep assembly export"@,
                Protocol::Ap214,
                assembly_state(model, ids, sheets),
            ),
            file_head("cadcore B-Rep assembly export"@, Protocol::Ap214),
            assembly_state(model, ids, sheets),
        ),
{
    lemma_assembly_state(model, ids, sheets);
    assert(plain("cadcore B-Rep assembly export"@)) by {
        reveal(plain);
        reveal_strlit("cadcore B-Rep assembly export");
    }
    lemma_ids_count_up(
        "cadcore B-Rep assembly export"@,
        Protocol::Ap214,
        assembly_state(model, ids, sheets),
    );
}

/// A file begins with `ISO-10303-21;` and ends with `END-ISO-10303-21;` and the
/// end of the line.
pub proof fn law_file_is_framed(description: Seq<char>, protocol: Protocol, state: StepState)
    ensures
        ({
            let whole = file(description, protocol, state);
            let first = characters("ISO-10303-21;"@);
            let last = characters("END-ISO-10303-21;\n"@);
            &&& whole.len() >= first.len() + last.len()
            &&& whole.take(first.len() as int) == first
            &&& whole.skip(whole.len() - last.len()) == last
        }),
{
    let whole = file(description, protocol, state);
    let a = "ISO-10303-21;\nHEADER;\n  FILE_DESCRIPTION(('"@;
    let t = "ENDSEC;\nEND-ISO-10303-21;\n"@;
    let first = "ISO-10303-21;"@;
    let last = "END-ISO-10303-21;\n"@;
    reveal_strlit("ISO-10303-21;\nHEADER;\n  FILE_DESCRIPTION(('");
    reveal_strlit("ENDSEC;\nEND-ISO-10303-21;\n");
    reveal_strlit("ISO-10303-21;");
    reveal_strlit("END-ISO-10303-21;\n");
    lemma_characters(a);
    lemma_characters(t);
    lemma_characters(first);
    lemma_characters(last);
    let head = file_head(description, protocol);
    assert(head.len() >= a.len());
    assert forall|i: int| 0 <= i < a.len() implies #[trigger] head[i] == characters(a)[i] by {}
    assert(file_tail() =~= characters(t));
    let from = whole.len() - last.len();
    assert forall|i: int| 0 <= i < first.len() implies whole[i] == #[trigger] characters(
        first,
    )[i] by {
        assert(whole[i] == head[i]);
        assert(a[i] == first[i]);
    }
    assert forall|i: int| 0 <= i < last.len() implies whole[from + i] == #[trigger] characters(
        last,
    )[i] by {
        assert(whole[from + i] == characters(t)[t.len() - last.len() + i]);
        assert(t[t.len() - last.len() + i] == last[i]);
    }
    assert(whole.take(first.len() as int) =~= characters(first));
    assert(whole.skip(from) =~= characters(last));
}

/// Whether a curve is used twice, and from either end if it has ends.
pub open spec fn shared_by_two(uses: Seq<StepUse>, curve: usize) -> bool {
    exists|i: int, j: int|
        #![trigger uses[i], uses[j]]
        0 <= i < j < uses.len() && uses[i].curve == curve && uses[j].curve == curve && (
        uses[i].way is From ==> uses[i].way != uses[j].way) && forall|m: int|
            0 <= m < uses.len() && m != i && m != j ==> (#[trigger] uses[m]).curve != curve
}

/// Whether every curve that is used is used twice, and from either end if it
/// has ends.
pub open spec fn all_shared(uses: Seq<StepUse>) -> bool {
    forall|m: int| 0 <= m < uses.len() ==> shared_by_two(uses, (#[trigger] uses[m]).curve)
}

proof fn lemma_run_never(uses: Seq<StepUse>, curve: nat, same: bool)
    requires
        forall|m: int|
            0 <= m < uses.len() ==> (#[trigger] uses[m]).curve != curve || uses[m].same != same,
    ensures
        times_run(uses, curve, same) == 0,
    decreases uses.len(),
{
    if uses.len() > 0 {
        let rest = uses.drop_last();
        assert forall|m: int| 0 <= m < rest.len() implies (#[trigger] rest[m]).curve != curve
            || rest[m].same != same by {
            assert(rest[m] == uses[m]);
        }
        assert(uses.last() == uses[uses.len() - 1]);
        lemma_run_never(rest, curve, same);
    }
}

proof fn lemma_run_once(uses: Seq<StepUse>, curve: nat, same: bool, i: int)
    requires
        0 <= i < uses.len(),
        uses[i].curve == curve && uses[i].same == same,
        forall|m: int|
            0 <= m < uses.len() && m != i ==> (#[trigger] uses[m]).curve != curve || uses[m].same
                != same,
    ensures
        times_run(uses, curve, same) == 1,
    decreases uses.len(),
{
    let rest = uses.drop_last();
    assert(uses.last() == uses[uses.len() - 1]);
    assert forall|m: int| 0 <= m < rest.len() implies #[trigger] rest[m] == uses[m] by {}
    if i == uses.len() - 1 {
        lemma_run_never(rest, curve, same);
    } else {
        lemma_run_once(rest, curve, same, i);
    }
}

proof fn lemma_run_both_ways(s: StepState, k: int)
    requires
        neat(s, s.counter),
        all_shared(s.uses),
        0 <= k < s.lines.len(),
        is_edge_curve(s.lines[k]),
    ensures
        times_said(s.lines, use_body((k + 1) as nat, true)) == 1,
        times_said(s.lines, use_body((k + 1) as nat, false)) == 1,
{
    let uses = s.uses;
    let c = (k + 1) as nat;
    reveal(neat);
    assert(is_edge_curve(s.lines[k]));
    let u = choose|u: int| 0 <= u < uses.len() && (#[trigger] uses[u]).curve == k + 1;
    let curve = uses[u].curve;
    assert(shared_by_two(uses, curve));
    let (i, j) = choose|i: int, j: int|
        #![trigger uses[i], uses[j]]
        0 <= i < j < uses.len() && uses[i].curve == curve && uses[j].curve == curve && (
        uses[i].way is From ==> uses[i].way != uses[j].way) && forall|m: int|
            0 <= m < uses.len() && m != i && m != j ==> (#[trigger] uses[m]).curve != curve;
    assert(is_first(uses, i));
    assert(follows(uses[i], uses[j]));
    assert(uses[i].same != uses[j].same);
    if uses[i].same {
        lemma_run_once(uses, c, true, i);
        lemma_run_once(uses, c, false, j);
    } else {
        lemma_run_once(uses, c, true, j);
        lemma_run_once(uses, c, false, i);
    }
    assert(times_said(s.lines, use_body(c, true)) == times_run(uses, c, true));
    assert(times_said(s.lines, use_body(c, false)) == times_run(uses, c, false));
}

/// In a file of parts whose shells are closed every edge curve has one use along
/// it and one against it: where the bounds use each curve twice, and a curve
/// with ends from either end, each `EDGE_CURVE` of the file is named by one
/// `ORIENTED_EDGE` with `.T.` and by one with `.F.`. No solid's name may hold a
/// `#`.
pub proof fn law_edge_curves_are_run_both_ways(
    model: Model,
    ids: Seq<SolidId>,
    sheets: Seq<Vec<FaceSheet>>,
    k: int,
)
    requires
        all_named_plainly(model),
        part_state(model, ids, sheets).counter <= usize::MAX,
        all_shared(part_state(model, ids, sheets).uses),
        0 <= k < part_state(model, ids, sheets).lines.len(),
        is_edge_curve(part_state(model, ids, sheets).lines[k]),
    ensures
        times_said(part_state(model, ids, sheets).lines, use_body((k + 1) as nat, true)) == 1,
        times_said(part_state(model, ids, sheets).lines, use_body((k + 1) as nat, false)) == 1,
{
    lemma_part_state(model, ids, sheets);
    lemma_run_both_ways(part_state(model, ids, sheets), k);
}

/// In a file of an assembly whose shells are closed every edge curve has one use
/// along it and one against it, as in a file of parts.
pub proof fn law_assembly_edge_curves_are_run_both_ways(
    model: Model,
    ids: Seq<SolidId>,
    sheets: Seq<Vec<FaceSheet>>,
    k: int,
)
    requires
        all_named_plainly(model),
        assembly_state(model, ids, sheets).counter <= usize::MAX,
        all_shared(assembly_state(model, ids, sheets).uses),
        0 <= k < assembly_state(model, ids, sheets).lines.len(),
        is_edge_curve(assembly_state(model, ids, sheets).lines[k]),
    ensures
        times_said(assembly_state(model, ids, sheets).lines, use_body((k + 1) as nat, true)) == 1,
        times_said(assembly_state(model, ids, sheets).lines, use_body((k + 1) as nat, false)) == 1,
{
    lemma_assembly_state(model, ids, sheets);
    lemma_run_both_ways(assembly_state(model, ids, sheets), k);
}

} // verus!
