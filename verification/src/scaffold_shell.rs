//! What a fused scaffold is made of: one shell, and the faces in it.

use vstd::prelude::*;

use crate::assembly::{face_made, AsmState, Window};
use crate::assembly_laws::lemma_face_keeps_solids;
use crate::brep::Model;
use crate::entities::{Face, FaceGeom, FaceNormal};
use crate::ids::{FaceId, ShellId, SolidId};
use crate::scaffold::{
    cap_face, elbow_face, elbow_faces, faces_made, fresh, group_in, group_out, grouped, imprints,
    leg_base, leg_face, leg_faces, scaffold_faces, scaffold_fused, windows_of, AsmFace, Crossing,
    FilamentSheet, Imprint, Nearness,
};
use crate::scaffold_laws::joined_up;
use crate::solid::{assembled, lemma_singleton};

verus! {

/// A kind of surface.
pub enum Kind {
    Flat,
    Straight,
    Bent,
}

/// Whether a surface is of a kind.
pub open spec fn is_of(geom: FaceGeom, kind: Kind) -> bool {
    match kind {
        Kind::Flat => geom is Plane,
        Kind::Straight => geom is Cylinder,
        Kind::Bent => geom is Torus,
    }
}

/// How many of some surfaces are of a kind.
pub open spec fn how_many(geoms: Seq<FaceGeom>, kind: Kind) -> nat
    decreases geoms.len(),
{
    if geoms.len() == 0 {
        0
    } else {
        how_many(geoms.drop_last(), kind) + (if is_of(geoms.last(), kind) {
            1nat
        } else {
            0
        })
    }
}

/// The surfaces of faces.
pub open spec fn surfaces(faces: Map<FaceId, Face>, ids: Seq<FaceId>) -> Seq<FaceGeom> {
    Seq::new(ids.len(), |i: int| faces[ids[i]].geom)
}

/// The surfaces of faces to be made.
spec fn planned(faces: Seq<AsmFace>) -> Seq<FaceGeom> {
    Seq::new(faces.len(), |i: int| faces[i].geom)
}

/// How many bends the first `k` filaments have.
pub open spec fn bend_base(sheets: Seq<FilamentSheet>, k: int) -> int
    decreases k,
{
    if k <= 0 {
        0
    } else {
        bend_base(sheets, k - 1) + sheets[k - 1].elbows@.len()
    }
}

proof fn lemma_how_many_push(geoms: Seq<FaceGeom>, geom: FaceGeom, kind: Kind)
    ensures
        how_many(geoms.push(geom), kind) == how_many(geoms, kind) + (if is_of(geom, kind) {
            1nat
        } else {
            0
        }),
{
    assert(geoms.push(geom).drop_last() =~= geoms);
}

proof fn lemma_planned_push(faces: Seq<AsmFace>, face: AsmFace, kind: Kind)
    ensures
        how_many(planned(faces.push(face)), kind) == how_many(planned(faces), kind) + (if is_of(
            face.geom,
            kind,
        ) {
            1nat
        } else {
            0
        }),
{
    assert(planned(faces.push(face)) =~= planned(faces).push(face.geom));
    lemma_how_many_push(planned(faces), face.geom, kind);
}

proof fn lemma_planned_add(a: Seq<AsmFace>, b: Seq<AsmFace>, kind: Kind)
    ensures
        how_many(planned(a + b), kind) == how_many(planned(a), kind) + how_many(planned(b), kind),
    decreases b.len(),
{
    if b.len() == 0 {
        assert(a + b =~= a);
    } else {
        lemma_planned_add(a, b.drop_last(), kind);
        assert((a + b) =~= (a + b.drop_last()).push(b.last()));
        assert(b =~= b.drop_last().push(b.last()));
        lemma_planned_push(a + b.drop_last(), b.last(), kind);
        lemma_planned_push(b.drop_last(), b.last(), kind);
    }
}

proof fn lemma_leg_faces(
    sheet: FilamentSheet,
    f: int,
    base: int,
    crossings: Seq<Window>,
    log: Seq<Imprint>,
    k: int,
)
    requires
        0 <= k <= sheet.legs@.len(),
    ensures
        ({
            let faces = leg_faces(sheet, f, base, crossings, log, k);
            let caps: int = (if k > 0 {
                1int
            } else {
                0
            }) + (if k > 0 && k == sheet.legs@.len() {
                1int
            } else {
                0
            });
            &&& faces.len() == k + caps
            &&& how_many(planned(faces), Kind::Straight) == k
            &&& how_many(planned(faces), Kind::Flat) == caps
            &&& how_many(planned(faces), Kind::Bent) == 0
        }),
    decreases k,
{
    if k > 0 {
        let i = k - 1;
        let leg = sheet.legs@[i];
        lemma_leg_faces(sheet, f, base, crossings, log, i);
        let rest = leg_faces(sheet, f, base, crossings, log, i);
        let face = leg_face(leg, f, base, i, crossings, log);
        let start = cap_face(
            leg.cap_in,
            grouped(leg.rim_in, group_in(base, i)),
        );
        let end = cap_face(
            leg.cap_out,
            grouped(leg.rim_out, group_out(base, i)),
        );
        let tube = rest.push(face);
        let started = if i == 0 {
            tube.push(start)
        } else {
            tube
        };
        assert forall|kind: Kind| #[trigger]
            how_many(planned(tube), kind) == how_many(planned(rest), kind) + (if kind is Straight {
                1nat
            } else {
                0
            }) by {
            lemma_planned_push(rest, face, kind);
        }
        assert forall|kind: Kind| #[trigger]
            how_many(planned(started), kind) == how_many(planned(tube), kind) + (if i == 0
                && kind is Flat {
                1nat
            } else {
                0
            }) by {
            lemma_planned_push(tube, start, kind);
        }
        lemma_planned_push(started, end, Kind::Straight);
        lemma_planned_push(started, end, Kind::Flat);
        lemma_planned_push(started, end, Kind::Bent);
    }
}

proof fn lemma_elbow_faces(
    sheet: FilamentSheet,
    f: int,
    base: int,
    crossings: Seq<Window>,
    log: Seq<Imprint>,
    k: int,
)
    requires
        0 <= k,
    ensures
        ({
            let faces = elbow_faces(sheet, f, base, crossings, log, k);
            &&& faces.len() == k
            &&& how_many(planned(faces), Kind::Straight) == 0
            &&& how_many(planned(faces), Kind::Flat) == 0
            &&& how_many(planned(faces), Kind::Bent) == k
        }),
    decreases k,
{
    if k > 0 {
        lemma_elbow_faces(sheet, f, base, crossings, log, k - 1);
        let rest = elbow_faces(sheet, f, base, crossings, log, k - 1);
        let face = elbow_face(sheet, f, base, k - 1, crossings, log);
        lemma_planned_push(rest, face, Kind::Straight);
        lemma_planned_push(rest, face, Kind::Flat);
        lemma_planned_push(rest, face, Kind::Bent);
    }
}

proof fn lemma_scaffold_faces(
    sheets: Seq<FilamentSheet>,
    crossings: Seq<Window>,
    log: Seq<Imprint>,
    k: int,
)
    requires
        joined_up(sheets),
        0 <= k <= sheets.len(),
    ensures
        ({
            let faces = scaffold_faces(sheets, crossings, log, k);
            &&& faces.len() == leg_base(sheets, k) + bend_base(sheets, k) + 2 * k
            &&& how_many(planned(faces), Kind::Straight) == leg_base(sheets, k)
            &&& how_many(planned(faces), Kind::Flat) == 2 * k
            &&& how_many(planned(faces), Kind::Bent) == bend_base(sheets, k)
        }),
    decreases k,
{
    if k > 0 {
        let f = k - 1;
        let base = leg_base(sheets, f);
        let sheet = sheets[f];
        let legs = leg_faces(sheet, f, base, crossings, log, sheet.legs@.len() as int);
        let bends = elbow_faces(sheet, f, base, crossings, log, sheet.elbows@.len() as int);
        let rest = scaffold_faces(sheets, crossings, log, f);
        lemma_scaffold_faces(sheets, crossings, log, f);
        lemma_leg_faces(sheet, f, base, crossings, log, sheet.legs@.len() as int);
        lemma_elbow_faces(sheet, f, base, crossings, log, sheet.elbows@.len() as int);
        assert forall|kind: Kind| #[trigger]
            how_many(planned(rest + legs + bends), kind) == how_many(planned(rest), kind)
                + how_many(planned(legs), kind) + how_many(planned(bends), kind) by {
            lemma_planned_add(rest, legs, kind);
            lemma_planned_add(rest + legs, bends, kind);
        }
    }
}

/// Making faces adds them, each once, and leaves everything that there was.
proof fn lemma_faces_made(s: AsmState, t: AsmState, faces: Seq<AsmFace>, ids: Seq<FaceId>)
    requires
        faces_made(s, t, faces, ids),
    ensures
        ids.len() == faces.len(),
        t.model.shells == s.model.shells,
        t.model.solids == s.model.solids,
        forall|id: FaceId| #[trigger]
            t.model.faces.dom().contains(id) <==> s.model.faces.dom().contains(id) || ids.contains(
                id,
            ),
        forall|id: FaceId| #[trigger]
            s.model.faces.dom().contains(id) ==> t.model.faces[id] == s.model.faces[id],
        forall|i: int| 0 <= i < ids.len() ==> !s.model.faces.dom().contains(#[trigger] ids[i]),
        ids.no_duplicates(),
        surfaces(t.model.faces, ids) == planned(faces),
    decreases faces.len(),
{
    if faces.len() > 0 {
        let face = faces.last();
        let id = ids.last();
        let less = ids.drop_last();
        let m = choose|m: AsmState|
            faces_made(s, m, faces.drop_last(), less) && #[trigger] face_made(
                m,
                t,
                face.geom,
                FaceNormal::Same,
                face.extent,
                face.outer,
                face.inner,
                id,
            );
        lemma_faces_made(s, m, faces.drop_last(), less);
        lemma_face_keeps_solids(
            m,
            t,
            face.geom,
            FaceNormal::Same,
            face.extent,
            face.outer,
            face.inner,
            id,
        );
        assert(t.model.faces =~= m.model.faces.insert(id, t.model.faces[id]));
        assert forall|k: FaceId| ids.contains(k) <==> less.contains(k) || k == id by {
            if less.contains(k) {
                let i = choose|i: int| 0 <= i < less.len() && less[i] == k;
                assert(ids[i] == k);
            }
            if ids.contains(k) {
                let i = choose|i: int| 0 <= i < ids.len() && ids[i] == k;
                if i < less.len() {
                    assert(less[i] == k);
                }
            }
            assert(ids[ids.len() - 1] == id);
        }
        assert forall|i: int| 0 <= i < less.len() implies #[trigger] ids[i] != id
            && m.model.faces.dom().contains(ids[i]) by {
            assert(less[i] == ids[i]);
            assert(less.contains(ids[i]));
        }
        assert forall|i: int| 0 <= i < ids.len() implies !s.model.faces.dom().contains(
            #[trigger] ids[i],
        ) by {
            if i < less.len() {
                assert(less[i] == ids[i]);
            }
        }
        assert forall|i: int, j: int| 0 <= i < j < ids.len() implies ids[i] != ids[j] by {
            if j < less.len() {
                assert(less[i] == ids[i] && less[j] == ids[j]);
            }
        }
        assert forall|i: int| 0 <= i < ids.len() implies surfaces(t.model.faces, ids)[i]
            == #[trigger] planned(faces)[i] by {
            if i < less.len() {
                assert(surfaces(m.model.faces, less)[i] == planned(faces.drop_last())[i]);
                assert(less[i] == ids[i]);
            }
        }
        assert(surfaces(t.model.faces, ids) =~= planned(faces));
    } else {
        assert(surfaces(t.model.faces, ids) =~= planned(faces));
    }
}

/// A fused scaffold is one new solid of one new outer shell, next to whatever
/// shells and solids there were. The shell has a face on a cylinder for every
/// leg, one on a torus for every bend, and two flat ones for every filament, all
/// of them new and no others, and each names the shell.
pub proof fn law_scaffold_is_one_shell(
    before: Model,
    after: Model,
    sheets: Seq<FilamentSheet>,
    all: Seq<Crossing>,
    near: Seq<Vec<Nearness>>,
    strict: bool,
    shell: ShellId,
)
    requires
        scaffold_fused(before, after, sheets, all, near, strict, shell),
        joined_up(sheets),
    ensures
        ({
            let n = sheets.len() as int;
            let faces = after.shells[shell].faces@;
            let solid = after.shells[shell].solid;
            &&& !before.shells.dom().contains(shell)
            &&& after.shells.dom() == before.shells.dom().insert(shell)
            &&& forall|k: ShellId| #[trigger]
                before.shells.dom().contains(k) ==> after.shells[k] == before.shells[k]
            &&& !before.solids.dom().contains(solid)
            &&& after.solids.dom() == before.solids.dom().insert(solid)
            &&& forall|k: SolidId| #[trigger]
                before.solids.dom().contains(k) ==> after.solids[k] == before.solids[k]
            &&& after.shells[shell].is_outer
            &&& after.solids[solid].shells@ == seq![shell]
            &&& faces.len() == leg_base(sheets, n) + bend_base(sheets, n) + 2 * n
            &&& how_many(surfaces(after.faces, faces), Kind::Straight) == leg_base(sheets, n)
            &&& how_many(surfaces(after.faces, faces), Kind::Bent) == bend_base(sheets, n)
            &&& how_many(surfaces(after.faces, faces), Kind::Flat) == 2 * n
            &&& faces.no_duplicates()
            &&& forall|id: FaceId| #[trigger]
                faces.contains(id) <==> after.faces.dom().contains(id)
                    && !before.faces.dom().contains(id)
            &&& forall|i: int|
                0 <= i < faces.len() ==> after.faces[#[trigger] faces[i]].shell == shell
            &&& forall|id: FaceId| #[trigger]
                before.faces.dom().contains(id) ==> after.faces.dom().contains(id)
                    && after.faces[id] == before.faces[id]
        }),
{
    let n = sheets.len() as int;
    let state = imprints(all, near, strict, all.len() as int);
    let (crossings, t, ids, solid) = choose|
        crossings: Seq<Window>,
        t: AsmState,
        ids: Seq<FaceId>,
        solid: SolidId,
    |
        windows_of(crossings, all, state) && #[trigger] faces_made(
            fresh(before),
            t,
            scaffold_faces(sheets, crossings, state.log, n),
            ids,
        ) && #[trigger] assembled(t.model, after, ids, Some("scaffold"@), shell, solid);
    let faces = scaffold_faces(sheets, crossings, state.log, n);
    lemma_faces_made(fresh(before), t, faces, ids);
    lemma_scaffold_faces(sheets, crossings, state.log, n);
    lemma_singleton(shell);
    lemma_singleton(solid);
    assert(seq![shell][0] == shell && seq![solid][0] == solid);
    assert(after.shells.dom() =~= before.shells.dom().insert(shell));
    assert(after.solids.dom() =~= before.solids.dom().insert(solid));
    assert forall|i: int| 0 <= i < ids.len() implies t.model.faces.dom().contains(
        #[trigger] ids[i],
    ) && ids.contains(ids[i]) by {}
    assert forall|id: FaceId| #[trigger] ids.contains(id) implies !before.faces.dom().contains(
        id,
    ) by {
        let i = choose|i: int| 0 <= i < ids.len() && ids[i] == id;
        assert(!fresh(before).model.faces.dom().contains(ids[i]));
    }
    assert(surfaces(after.faces, ids) =~= surfaces(t.model.faces, ids));
}

} // verus!
