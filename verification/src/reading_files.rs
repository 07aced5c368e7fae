//! What a file says of its solids, parts and components to whoever reads it.

use vstd::prelude::*;

use crate::bounds::{Emitted, FaceSheet};
use crate::brep::Model;
use crate::cut::{live_faces, shell_faces, visited};
use crate::entities::{Face, Solid};
use crate::ids::{FaceId, ShellId, SolidId};
use crate::reading::{
    also, done, face_text, is_surface, lemma_done_step, lemma_placement_text, lemma_ref_step,
    lemma_refs_step, lemma_spelled, named, placement_text, reference_list, says, spelled, unnamed,
    Arg,
};
use crate::reading_bounds::counted;
use crate::reading_solids::{is_face, law_faces_read_back};
use crate::script::{characters, decimal, lemma_characters_add, Glyph, Script};
use crate::step::StepState;
use crate::step_laws::lines_stay;
use crate::writer::{
    application_text, label, label_text, part_shape_body, part_state, product_body,
    products_emitted, shapes_emitted, shell_emitted, shells_emitted, solid_base, solid_emitted,
    solids_emitted, solids_named, AssemblyIds, Protocol,
};

verus! {

proof fn lemma_stay_chain(s: StepState, t: StepState, u: StepState)
    requires
        lines_stay(s, t),
        lines_stay(t, u),
    ensures
        lines_stay(s, u),
{
    assert forall|i: int| 0 <= i < s.lines.len() implies #[trigger] u.lines[i] == s.lines[i] by {
        assert(t.lines[i] == s.lines[i]);
    }
}

proof fn lemma_says_stays(s: StepState, t: StepState)
    requires
        lines_stay(s, t),
    ensures
        forall|id: int, text: Seq<Glyph>| #[trigger]
            says(s.lines, id, text) ==> says(t.lines, id, text),
{
    assert forall|id: int, text: Seq<Glyph>| #[trigger] says(s.lines, id, text) implies says(
        t.lines,
        id,
        text,
    ) by {
        assert(t.lines[id - 1] == s.lines[id - 1]);
    }
}

proof fn lemma_face_stays(s: StepState, t: StepState, id: int, face: Face)
    requires
        lines_stay(s, t),
        is_face(s.lines, id, face),
    ensures
        is_face(t.lines, id, face),
{
    lemma_says_stays(s, t);
    let (bounds, surface) = choose|bounds: Seq<usize>, surface: usize| #[trigger]
        says(s.lines, id, face_text(bounds, surface, face.normal is Same)) && is_surface(
            s.lines,
            surface as int,
            face.geom,
        );
    assert(says(t.lines, id, face_text(bounds, surface, face.normal is Same)));
    assert(is_surface(t.lines, surface as int, face.geom));
}

proof fn lemma_shell_reads(
    start: Emitted,
    faces: Map<FaceId, Face>,
    ids: Seq<FaceId>,
    sheets: Seq<FaceSheet>,
    offset: int,
    j: int,
)
    requires
        counted(start.state),
        0 <= j <= ids.len(),
        shell_emitted(start, faces, ids, sheets, offset, j).state.counter <= usize::MAX,
    ensures
        ({
            let e = shell_emitted(start, faces, ids, sheets, offset, j);
            let live = live_faces(faces, ids.take(j));
            let n = start.ids.len() as int;
            &&& counted(e.state)
            &&& lines_stay(start.state, e.state)
            &&& e.ids.len() == n + live.len()
            &&& forall|i: int| 0 <= i < n ==> #[trigger] e.ids[i] == start.ids[i]
            &&& forall|m: int|
                0 <= m < live.len() ==> is_face(
                    e.state.lines,
                    #[trigger] e.ids[n + m] as int,
                    faces[live[m]],
                )
        }),
    decreases j,
{
    if j > 0 {
        let was = shell_emitted(start, faces, ids, sheets, offset, j - 1);
        let e = shell_emitted(start, faces, ids, sheets, offset, j);
        let n = start.ids.len() as int;
        let live = live_faces(faces, ids.take(j));
        let before = live_faces(faces, ids.take(j - 1));
        assert(ids.take(j).drop_last() =~= ids.take(j - 1));
        if faces.dom().contains(ids[j - 1]) {
            let k = offset + before.len();
            let face = faces[ids[j - 1]];
            crate::growth::lemma_advanced_face(was.state, face, sheets[k]);
            lemma_shell_reads(start, faces, ids, sheets, offset, j - 1);
            law_faces_read_back(was.state, face, sheets[k]);
            lemma_stay_chain(start.state, was.state, e.state);
            assert forall|m: int| 0 <= m < live.len() implies is_face(
                e.state.lines,
                #[trigger] e.ids[n + m] as int,
                faces[live[m]],
            ) by {
                if m < before.len() {
                    assert(e.ids[n + m] == was.ids[n + m]);
                    lemma_face_stays(
                        was.state,
                        e.state,
                        was.ids[n + m] as int,
                        faces[before[m]],
                    );
                }
            }
        } else {
            lemma_shell_reads(start, faces, ids, sheets, offset, j - 1);
        }
    }
}

proof fn lemma_shell_counter(
    start: Emitted,
    faces: Map<FaceId, Face>,
    ids: Seq<FaceId>,
    sheets: Seq<FaceSheet>,
    offset: int,
    j: int,
)
    ensures
        start.state.counter <= shell_emitted(start, faces, ids, sheets, offset, j).state.counter,
    decreases j,
{
    if j > 0 {
        let was = shell_emitted(start, faces, ids, sheets, offset, j - 1);
        lemma_shell_counter(start, faces, ids, sheets, offset, j - 1);
        let k = offset + live_faces(faces, ids.take(j - 1)).len();
        crate::growth::lemma_advanced_face(was.state, faces[ids[j - 1]], sheets[k]);
    }
}

proof fn lemma_shells_read(
    state: StepState,
    model: Model,
    shells: Seq<ShellId>,
    sheets: Seq<FaceSheet>,
    i: int,
)
    requires
        counted(state),
        0 <= i <= shells.len(),
        shells_emitted(state, model, shells, sheets, i).state.counter <= usize::MAX,
    ensures
        ({
            let e = shells_emitted(state, model, shells, sheets, i);
            let all = shell_faces(model, shells.take(i));
            &&& counted(e.state)
            &&& lines_stay(state, e.state)
            &&& e.ids.len() == all.len()
            &&& forall|k: int|
                0 <= k < all.len() ==> is_face(
                    e.state.lines,
                    #[trigger] e.ids[k] as int,
                    model.faces[all[k]],
                )
        }),
    decreases i,
{
    if i > 0 {
        let was = shells_emitted(state, model, shells, sheets, i - 1);
        let fresh = Emitted { state: was.state.cleared(), ids: was.ids };
        let e = shells_emitted(state, model, shells, sheets, i);
        let before = shell_faces(model, shells.take(i - 1));
        let all = shell_faces(model, shells.take(i));
        let id = shells[i - 1];
        assert(shells.take(i).drop_last() =~= shells.take(i - 1));
        if model.shells.dom().contains(id) {
            let ids = model.shells[id].faces@;
            let n = ids.len() as int;
            let offset = before.len() as int;
            let live = live_faces(model.faces, ids);
            lemma_shell_counter(fresh, model.faces, ids, sheets, offset, n);
            lemma_shells_read(state, model, shells, sheets, i - 1);
            lemma_shell_reads(fresh, model.faces, ids, sheets, offset, n);
            assert(ids.take(n) =~= ids);
            lemma_stay_chain(state, fresh.state, e.state);
            assert forall|k: int| 0 <= k < all.len() implies is_face(
                e.state.lines,
                #[trigger] e.ids[k] as int,
                model.faces[all[k]],
            ) by {
                if k < before.len() {
                    assert(e.ids[k] == was.ids[k]);
                    lemma_face_stays(
                        fresh.state,
                        e.state,
                        was.ids[k] as int,
                        model.faces[before[k]],
                    );
                } else {
                    let m = k - before.len();
                    assert(e.ids[before.len() + m] == e.ids[k]);
                    assert(all[k] == live[m]);
                }
            }
        } else {
            lemma_shells_read(state, model, shells, sheets, i - 1);
        }
    }
}

/// Whether entities are the faces of a solid, each once and in turn.
pub open spec fn are_faces(
    lines: Seq<Script>,
    ids: Seq<usize>,
    model: Model,
    solid: SolidId,
) -> bool {
    &&& ids.len() == visited(model, solid).len()
    &&& forall|k: int|
        0 <= k < ids.len() ==> is_face(
            lines,
            #[trigger] ids[k] as int,
            model.faces[visited(model, solid)[k]],
        )
}

/// Whoever reads the faces of a solid finds each of them, in turn, and no other.
pub proof fn law_solids_read_back(
    state: StepState,
    model: Model,
    solid: SolidId,
    sheets: Seq<FaceSheet>,
)
    requires
        counted(state),
        solid_emitted(state, model, solid, sheets).state.counter <= usize::MAX,
    ensures
        ({
            let e = solid_emitted(state, model, solid, sheets);
            &&& counted(e.state)
            &&& lines_stay(state, e.state)
            &&& are_faces(e.state.lines, e.ids, model, solid)
        }),
{
    if model.solids.dom().contains(solid) {
        let shells = model.solids[solid].shells@;
        lemma_shells_read(state, model, shells, sheets, shells.len() as int);
        assert(shells.take(shells.len() as int) =~= shells);
    }
}

proof fn lemma_live_all(faces: Map<FaceId, Face>, ids: Seq<FaceId>, f: FaceId)
    ensures
        live_faces(faces, ids).contains(f) <==> ids.contains(f) && faces.dom().contains(f),
    decreases ids.len(),
{
    if ids.len() > 0 {
        let rest = ids.drop_last();
        let was = live_faces(faces, rest);
        let now = live_faces(faces, ids);
        lemma_live_all(faces, rest, f);
        if was.contains(f) {
            let i = choose|i: int| 0 <= i < was.len() && was[i] == f;
            assert(now[i] == f);
        }
        if rest.contains(f) {
            let i = choose|i: int| 0 <= i < rest.len() && rest[i] == f;
            assert(ids[i] == f);
        }
        if ids.contains(f) {
            let i = choose|i: int| 0 <= i < ids.len() && ids[i] == f;
            if i < rest.len() {
                assert(rest[i] == f);
            } else if faces.dom().contains(f) {
                assert(now.last() == f);
            }
        }
        if now.contains(f) {
            let i = choose|i: int| 0 <= i < now.len() && now[i] == f;
            if i < was.len() {
                assert(was[i] == f);
            } else {
                assert(ids.last() == f);
            }
        }
    }
}

/// Whether a face is in a shell among these.
pub open spec fn in_shells(model: Model, shells: Seq<ShellId>, f: FaceId) -> bool {
    exists|i: int|
        0 <= i < shells.len() && model.shells.dom().contains(#[trigger] shells[i])
            && model.shells[shells[i]].faces@.contains(f)
}

proof fn lemma_shells_all(model: Model, shells: Seq<ShellId>, f: FaceId)
    ensures
        shell_faces(model, shells).contains(f) <==> in_shells(model, shells, f)
            && model.faces.dom().contains(f),
    decreases shells.len(),
{
    if shells.len() > 0 {
        let rest = shells.drop_last();
        lemma_shells_all(model, rest, f);
        let was = shell_faces(model, rest);
        let now = shell_faces(model, shells);
        let last = shells.last();
        let own = live_faces(model.faces, model.shells[last].faces@);
        lemma_live_all(model.faces, model.shells[last].faces@, f);
        if was.contains(f) {
            let i = choose|i: int| 0 <= i < was.len() && was[i] == f;
            assert(now[i] == f);
        }
        if in_shells(model, rest, f) {
            let i = choose|i: int|
                0 <= i < rest.len() && model.shells.dom().contains(#[trigger] rest[i])
                    && model.shells[rest[i]].faces@.contains(f);
            assert(shells[i] == rest[i]);
        }
        if in_shells(model, shells, f) {
            let i = choose|i: int|
                0 <= i < shells.len() && model.shells.dom().contains(#[trigger] shells[i])
                    && model.shells[shells[i]].faces@.contains(f);
            if i < rest.len() {
                assert(rest[i] == shells[i]);
            } else if model.faces.dom().contains(f) {
                let m = choose|m: int| 0 <= m < own.len() && own[m] == f;
                assert(now[was.len() + m] == f);
            }
        }
        if now.contains(f) {
            let i = choose|i: int| 0 <= i < now.len() && now[i] == f;
            if i < was.len() {
                assert(was[i] == f);
            } else {
                assert(own[i - was.len()] == f);
                assert(shells[shells.len() - 1] == last);
            }
        }
    }
}

/// The faces of a solid are those that its shells have, as far as they are there.
pub proof fn law_faces_of_a_solid(model: Model, solid: SolidId, f: FaceId)
    ensures
        visited(model, solid).contains(f) <==> model.solids.dom().contains(solid) && in_shells(
            model,
            model.solids[solid].shells@,
            f,
        ) && model.faces.dom().contains(f),
{
    if model.solids.dom().contains(solid) {
        lemma_shells_all(model, model.solids[solid].shells@, f);
    }
}

// ── Solids ──────────────────────────────────────────────────────────────────

/// A shell as it is written.
pub open spec fn shell_text(faces: Seq<usize>) -> Seq<Glyph> {
    done(also(named("CLOSED_SHELL"@, ""@), Arg::Refs(faces)))
}

/// A solid as it is written: its label, and its shell.
pub open spec fn solid_text(label: Seq<char>, shell: int) -> Seq<Glyph> {
    done(also(named("MANIFOLD_SOLID_BREP"@, label), Arg::Ref(shell)))
}

/// What a solid goes by: its name, or something else if it has none or an empty
/// one; and its place.
pub open spec fn goes_by(solid: Solid, other: Seq<char>, place: nat) -> Seq<char> {
    (match solid.name {
        Some(name) => if name@.len() == 0 {
            other
        } else {
            name@
        },
        None => other,
    }) + seq!['_'] + decimal(place)
}

/// A shell and its solid read back: the shell has the faces, in turn, the solid
/// has the shell, and goes by what it should.
pub proof fn law_shells_read_back(
    s: StepState,
    faces: Seq<usize>,
    solid: Solid,
    other: Seq<char>,
    place: nat,
)
    requires
        counted(s),
    ensures
        ({
            let t = s.manifold(faces, solid, other, place);
            &&& counted(t)
            &&& lines_stay(s, t)
            &&& t.counter == s.counter + 2
            &&& says(t.lines, t.counter - 1, shell_text(faces))
            &&& says(
                t.lines,
                t.counter as int,
                solid_text(goes_by(solid, other, place), t.counter - 1),
            )
        }),
{
    reveal(StepState::manifold);
    let s1 = Script::empty().text("CLOSED_SHELL('',("@);
    lemma_refs_step(s1, faces);
    reveal_strlit("CLOSED_SHELL('',(");
    reveal_strlit("CLOSED_SHELL");
    reveal_strlit("('");
    reveal_strlit("");
    reveal_strlit("'");
    reveal_strlit(",");
    reveal_strlit("(");
    reveal_strlit(")");
    reveal_strlit("))");
    lemma_spelled("CLOSED_SHELL('',("@);
    lemma_spelled("))"@);
    assert(s1.glyphs =~= (named("CLOSED_SHELL"@, ""@) + spelled(","@)) + spelled("("@));
    assert(spelled("))"@) =~= spelled(")"@) + spelled(")"@));
    assert(s1.refs(faces).text("))"@).glyphs =~= shell_text(faces));
    let n = (s.counter + 1) as nat;
    let text = goes_by(solid, other, place);
    assert(text == label_text(solid_base(solid, other), place));
    lemma_spelled("MANIFOLD_SOLID_BREP('"@);
    lemma_spelled(text);
    lemma_spelled("',#"@);
    lemma_spelled(decimal(n));
    reveal_strlit("MANIFOLD_SOLID_BREP('");
    reveal_strlit("MANIFOLD_SOLID_BREP");
    reveal_strlit("',#");
    reveal_strlit("#");
    assert(spelled("MANIFOLD_SOLID_BREP('"@) =~= spelled("MANIFOLD_SOLID_BREP"@) + spelled("('"@));
    assert(spelled("',#"@) =~= (spelled("'"@) + spelled(","@)) + spelled("#"@));
    let s2 = label(Script::empty().text("MANIFOLD_SOLID_BREP('"@), solid, other, place);
    let s3 = s2.text("',#"@).whole(n);
    assert(s3.glyphs =~= also(named("MANIFOLD_SOLID_BREP"@, text), Arg::Ref(n as int)));
    lemma_done_step(s3);
    let t = s.manifold(faces, solid, other, place);
    assert(t.lines[s.counter as int].glyphs == shell_text(faces));
}

/// Whether entity `id` is a solid of a model, made of its faces.
pub open spec fn is_solid(
    lines: Seq<Script>,
    id: int,
    model: Model,
    solid: SolidId,
    label: Seq<char>,
) -> bool {
    &&& says(lines, id, solid_text(label, id - 1))
    &&& exists|faces: Seq<usize>| #[trigger]
        says(lines, id - 1, shell_text(faces)) && are_faces(lines, faces, model, solid)
}

/// What is read of faces stays.
pub proof fn lemma_faces_stay(s: StepState, t: StepState, ids: Seq<usize>, model: Model, solid: SolidId)
    requires
        lines_stay(s, t),
        are_faces(s.lines, ids, model, solid),
    ensures
        are_faces(t.lines, ids, model, solid),
{
    assert forall|k: int| 0 <= k < ids.len() implies is_face(
        t.lines,
        #[trigger] ids[k] as int,
        model.faces[visited(model, solid)[k]],
    ) by {
        lemma_face_stays(s, t, ids[k] as int, model.faces[visited(model, solid)[k]]);
    }
}

/// What is read of a solid stays.
pub proof fn lemma_solid_stays(
    s: StepState,
    t: StepState,
    id: int,
    model: Model,
    solid: SolidId,
    label: Seq<char>,
)
    requires
        lines_stay(s, t),
        is_solid(s.lines, id, model, solid, label),
    ensures
        is_solid(t.lines, id, model, solid, label),
{
    lemma_says_stays(s, t);
    let faces = choose|faces: Seq<usize>| #[trigger]
        says(s.lines, id - 1, shell_text(faces)) && are_faces(s.lines, faces, model, solid);
    lemma_faces_stay(s, t, faces, model, solid);
    assert(says(t.lines, id - 1, shell_text(faces)));
}

/// Ids only go up.
pub proof fn lemma_solids_counter(
    state: StepState,
    model: Model,
    ids: Seq<SolidId>,
    sheets: Seq<Vec<FaceSheet>>,
    k: int,
)
    ensures
        state.counter <= solids_emitted(state, model, ids, sheets, k).state.counter,
        k > 0 ==> solids_emitted(state, model, ids, sheets, k - 1).state.counter <= solids_emitted(
            state,
            model,
            ids,
            sheets,
            k,
        ).state.counter,
        k > 0 && model.solids.dom().contains(ids[k - 1]) ==> solid_emitted(
            solids_emitted(state, model, ids, sheets, k - 1).state,
            model,
            ids[k - 1],
            sheets[k - 1]@,
        ).state.counter <= solids_emitted(state, model, ids, sheets, k).state.counter,
    decreases k,
{
    if k > 0 {
        reveal(StepState::manifold);
        let was = solids_emitted(state, model, ids, sheets, k - 1);
        lemma_solids_counter(state, model, ids, sheets, k - 1);
        lemma_solid_counter(was.state, model, ids[k - 1], sheets[k - 1]@);
    }
}

/// Ids only go up.
pub proof fn lemma_solid_counter(
    state: StepState,
    model: Model,
    solid: SolidId,
    sheets: Seq<FaceSheet>,
)
    ensures
        state.counter <= solid_emitted(state, model, solid, sheets).state.counter,
{
    if model.solids.dom().contains(solid) {
        let shells = model.solids[solid].shells@;
        lemma_shells_counter(state, model, shells, sheets, shells.len() as int);
    }
}

proof fn lemma_shells_counter(
    state: StepState,
    model: Model,
    shells: Seq<ShellId>,
    sheets: Seq<FaceSheet>,
    i: int,
)
    ensures
        state.counter <= shells_emitted(state, model, shells, sheets, i).state.counter,
    decreases i,
{
    if i > 0 {
        lemma_shells_counter(state, model, shells, sheets, i - 1);
        let was = shells_emitted(state, model, shells, sheets, i - 1);
        let fresh = Emitted { state: was.state.cleared(), ids: was.ids };
        let id = shells[i - 1];
        if model.shells.dom().contains(id) {
            let ids = model.shells[id].faces@;
            let offset = shell_faces(model, shells.take(i - 1)).len() as int;
            lemma_shell_counter(fresh, model.faces, ids, sheets, offset, ids.len() as int);
        }
    }
}

/// Solids one after the other.
pub proof fn lemma_solids_read(
    state: StepState,
    model: Model,
    ids: Seq<SolidId>,
    sheets: Seq<Vec<FaceSheet>>,
    k: int,
)
    requires
        counted(state),
        0 <= k <= ids.len(),
        solids_emitted(state, model, ids, sheets, k).state.counter <= usize::MAX,
    ensures
        ({
            let e = solids_emitted(state, model, ids, sheets, k);
            &&& counted(e.state)
            &&& lines_stay(state, e.state)
            &&& e.ids.len() == solids_named(model, ids, k)
            &&& forall|j: int|
                0 <= j < k && model.solids.dom().contains(#[trigger] ids[j]) ==> solids_named(
                    model,
                    ids,
                    j,
                ) < e.ids.len() && is_solid(
                    e.state.lines,
                    e.ids[solids_named(model, ids, j) as int] as int,
                    model,
                    ids[j],
                    goes_by(model.solids[ids[j]], "solid"@, j as nat),
                )
        }),
    decreases k,
{
    if k > 0 {
        let was = solids_emitted(state, model, ids, sheets, k - 1);
        let e = solids_emitted(state, model, ids, sheets, k);
        let id = ids[k - 1];
        lemma_solids_counter(state, model, ids, sheets, k);
        lemma_solids_read(state, model, ids, sheets, k - 1);
        if model.solids.dom().contains(id) {
            let faces = solid_emitted(was.state, model, id, sheets[k - 1]@);
            let solid = model.solids[id];
            law_solids_read_back(was.state, model, id, sheets[k - 1]@);
            law_shells_read_back(faces.state, faces.ids, solid, "solid"@, (k - 1) as nat);
            lemma_stay_chain(was.state, faces.state, e.state);
            lemma_stay_chain(state, was.state, e.state);
            lemma_faces_stay(faces.state, e.state, faces.ids, model, id);
            assert(says(e.state.lines, e.state.counter - 1, shell_text(faces.ids)));
            assert(is_solid(
                e.state.lines,
                e.state.counter as int,
                model,
                id,
                goes_by(solid, "solid"@, (k - 1) as nat),
            ));
            assert forall|j: int|
                0 <= j < k && model.solids.dom().contains(#[trigger] ids[j]) implies solids_named(
                model,
                ids,
                j,
            ) < e.ids.len() && is_solid(
                e.state.lines,
                e.ids[solids_named(model, ids, j) as int] as int,
                model,
                ids[j],
                goes_by(model.solids[ids[j]], "solid"@, j as nat),
            ) by {
                if j < k - 1 {
                    let at = solids_named(model, ids, j) as int;
                    assert(e.ids[at] == was.ids[at]);
                    lemma_solid_stays(
                        was.state,
                        e.state,
                        was.ids[at] as int,
                        model,
                        ids[j],
                        goes_by(model.solids[ids[j]], "solid"@, j as nat),
                    );
                }
            }
        }
    }
}

} // verus!
