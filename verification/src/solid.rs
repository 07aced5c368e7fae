//! Building a solid from faces.

use vstd::prelude::*;

use crate::arena::SLOT_LIMIT;
use crate::brep::{BRep, Model};
use crate::entities::{ExtentView, Face, FaceExtent, FaceGeom, FaceNormal, Loop, Shell, Solid};
use crate::ids::{CoEdgeId, FaceId, LoopId, ShellId, SolidId};

verus! {

/// A face that is to be added to a model.
#[derive(Clone, Debug)]
pub struct FacePlan {
    /// The surface.
    pub geom: FaceGeom,
    /// The side that looks out.
    pub normal: FaceNormal,
    /// The part of the surface that it covers.
    pub extent: FaceExtent,
}

/// What a plan says.
#[verifier::ext_equal]
pub struct PlanView {
    pub geom: FaceGeom,
    pub normal: FaceNormal,
    pub extent: ExtentView,
}

impl FacePlan {
    /// What the plan says.
    pub open spec fn view(&self) -> PlanView {
        PlanView { geom: self.geom, normal: self.normal, extent: self.extent@ }
    }
}

/// What plans say.
pub open spec fn plan_views(plans: Seq<FacePlan>) -> Seq<PlanView> {
    plans.map_values(|plan: FacePlan| plan@)
}

/// One more plan says one thing more.
pub proof fn lemma_views_push(plans: Seq<FacePlan>, plan: FacePlan)
    ensures
        plan_views(plans.push(plan)) == plan_views(plans).push(plan@),
{
    assert(plan_views(plans.push(plan)) =~= plan_views(plans).push(plan@));
}

/// The ids that a new solid got.
pub struct BuiltIds {
    pub solid: SolidId,
    pub shell: ShellId,
    pub faces: Seq<FaceId>,
    pub loops: Seq<LoopId>,
}

/// A loop that holds no co-edges yet.
pub open spec fn placeholder() -> Loop {
    Loop { start: CoEdgeId::null(), face: FaceId::null() }
}

/// Whether a face is the planned one, with the given loop and shell.
pub open spec fn as_planned(face: Face, plan: PlanView, loop_id: LoopId, shell: ShellId) -> bool {
    &&& face.geom == plan.geom
    &&& face.normal == plan.normal
    &&& face.extent@ == plan.extent
    &&& face.outer_loop == loop_id
    &&& face.inner_loops@.len() == 0
    &&& face.shell == shell
}

/// Whether one map is another with new entries for exactly the given keys.
pub open spec fn extended<K, V>(before: Map<K, V>, after: Map<K, V>, added: Seq<K>) -> bool {
    &&& added.no_duplicates()
    &&& forall|i: int| 0 <= i < added.len() ==> !before.dom().contains(#[trigger] added[i])
    &&& after.dom() == before.dom().union(added.to_set())
    &&& forall|k: K| #[trigger] before.dom().contains(k) ==> after[k] == before[k]
}

/// The faces of a shell that were added for the plans, each with a placeholder
/// loop.
pub open spec fn faces_added(
    before: Model,
    after: Model,
    plans: Seq<PlanView>,
    faces: Seq<FaceId>,
    loops: Seq<LoopId>,
    shell: ShellId,
) -> bool {
    &&& faces.len() == plans.len()
    &&& loops.len() == plans.len()
    &&& extended(before.faces, after.faces, faces)
    &&& extended(before.loops, after.loops, loops)
    &&& forall|i: int|
        0 <= i < plans.len() ==> as_planned(
            #[trigger] after.faces[faces[i]],
            plans[i],
            loops[i],
            shell,
        )
    &&& forall|i: int| 0 <= i < plans.len() ==> #[trigger] after.loops[loops[i]] == placeholder()
    &&& after == Model { faces: after.faces, loops: after.loops, ..before }
}

/// The second model is the first with one more solid: one outer shell whose
/// faces are the planned ones in order, with every back-reference set.
pub open spec fn built(
    before: Model,
    after: Model,
    plans: Seq<PlanView>,
    name: Option<Seq<char>>,
    ids: BuiltIds,
) -> bool {
    &&& faces_added(
        before,
        Model { shells: before.shells, solids: before.solids, ..after },
        plans,
        ids.faces,
        ids.loops,
        ids.shell,
    )
    &&& ids.shell != ShellId::null()
    &&& ids.solid != SolidId::null()
    &&& extended(before.shells, after.shells, seq![ids.shell])
    &&& extended(before.solids, after.solids, seq![ids.solid])
    &&& after.shells[ids.shell].faces@ == ids.faces
    &&& after.shells[ids.shell].is_outer
    &&& after.shells[ids.shell].solid == ids.solid
    &&& after.solids[ids.solid].shells@ == seq![ids.shell]
    &&& after.solids[ids.solid].name is Some == name is Some
    &&& name is Some ==> after.solids[ids.solid].name->0@ == name->0
}

/// The characters of an optional name.
pub open spec fn name_view(name: Option<String>) -> Option<Seq<char>> {
    match name {
        None => None,
        Some(s) => Some(s@),
    }
}

/// The faces after those listed have been given to a shell.
pub open spec fn faces_given_to(
    faces: Map<FaceId, Face>,
    listed: Seq<FaceId>,
    shell: ShellId,
) -> Map<FaceId, Face> {
    Map::new(
        |id: FaceId| faces.dom().contains(id),
        |id: FaceId|
            if listed.contains(id) {
                Face { shell, ..faces[id] }
            } else {
                faces[id]
            },
    )
}

/// Insert a loop that holds no co-edges yet.
pub fn build_placeholder_loop(brep: &mut BRep) -> (id: LoopId)
    requires
        old(brep).wf(),
        old(brep)@.loops.dom().len() < SLOT_LIMIT,
    ensures
        final(brep).wf(),
        !old(brep)@.loops.dom().contains(id),
        final(brep)@ == (Model {
            loops: old(brep)@.loops.insert(id, placeholder()),
            ..old(brep)@
        }),
        final(brep)@.loops.dom().len() == old(brep)@.loops.dom().len() + 1,
        final(brep).solids == old(brep).solids,
{
    brep.add_loop(Loop { start: CoEdgeId::default(), face: FaceId::default() })
}

/// Add a shell of the listed faces and a solid of that shell; the listed faces
/// then name the shell, and the shell names the solid.
pub fn assemble_solid(brep: &mut BRep, face_ids: Vec<FaceId>, name: Option<String>) -> (ids: (
    ShellId,
    SolidId,
))
    requires
        old(brep).wf(),
        old(brep)@.shells.dom().len() < SLOT_LIMIT,
        old(brep)@.solids.dom().len() < SLOT_LIMIT,
    ensures
        final(brep).wf(),
        assembled(old(brep)@, final(brep)@, face_ids@, name_view(name), ids.0, ids.1),
        final(brep)@.faces.dom() == old(brep)@.faces.dom(),
        final(brep)@.shells.dom().len() == old(brep)@.shells.dom().len() + 1,
        final(brep)@.solids.dom().len() == old(brep)@.solids.dom().len() + 1,
        forall|k: SolidId| old(brep).solids.spent(k) ==> #[trigger] final(brep).solids.spent(k),
{
    let ghost before = brep@;
    let ghost listed = face_ids@;
    let mut copy: Vec<FaceId> = Vec::new();
    let mut k: usize = 0;
    while k < face_ids.len()
        invariant
            k <= face_ids@.len(),
            copy@ == face_ids@.take(k as int),
        decreases face_ids@.len() - k,
    {
        copy.push(face_ids[k]);
        assert(face_ids@.take(k as int).push(face_ids@[k as int]) =~= face_ids@.take(k + 1));
        k = k + 1;
    }
    assert(copy@ =~= face_ids@);
    let shell_id = brep.add_shell(
        Shell { faces: face_ids, is_outer: true, solid: SolidId::default() },
    );
    let ghost mid = brep@;
    let ghost kept = brep.solids;
    let mut i: usize = 0;
    while i < copy.len()
        invariant
            i <= copy@.len(),
            brep.wf(),
            brep.solids == kept,
            brep@ == (Model {
                faces: faces_given_to(mid.faces, copy@.take(i as int), shell_id),
                ..mid
            }),
        decreases copy@.len() - i,
    {
        match brep.faces.get_mut(copy[i]) {
            Some(f) => {
                f.shell = shell_id;
            },
            None => {},
        }
        proof {
            lemma_faces_given_to_step(mid.faces, copy@, i as int, shell_id);
        }
        i = i + 1;
    }
    assert(copy@.take(i as int) =~= copy@);
    assert(faces_given_to(mid.faces, copy@.take(0), shell_id) =~= mid.faces);
    let mut shells: Vec<ShellId> = Vec::new();
    shells.push(shell_id);
    let solid_id = brep.add_solid(Solid { shells, name });
    match brep.shells.get_mut(shell_id) {
        Some(sh) => {
            sh.solid = solid_id;
        },
        None => {},
    }
    proof {
        assert(brep@.solids[solid_id].shells@ =~= seq![shell_id]);
        lemma_singleton(shell_id);
        lemma_singleton(solid_id);
        assert(brep@.shells.dom() =~= before.shells.dom().union(set![shell_id]));
        assert(brep@.solids.dom() =~= before.solids.dom().union(set![solid_id]));
        assert(assembled(before, brep@, listed, name_view(name), shell_id, solid_id));
        assert(brep@.faces.dom() =~= before.faces.dom());
        assert(brep@.shells.dom() =~= mid.shells.dom());
    }
    (shell_id, solid_id)
}

/// The second model is the first with a new shell of the listed faces and a
/// new solid of that shell, every back-reference set.
pub open spec fn assembled(
    before: Model,
    after: Model,
    listed: Seq<FaceId>,
    name: Option<Seq<char>>,
    shell: ShellId,
    solid: SolidId,
) -> bool {
    &&& shell != ShellId::null()
    &&& solid != SolidId::null()
    &&& extended(before.shells, after.shells, seq![shell])
    &&& extended(before.solids, after.solids, seq![solid])
    &&& after.shells[shell].faces@ == listed
    &&& after.shells[shell].is_outer
    &&& after.shells[shell].solid == solid
    &&& after.solids[solid].shells@ == seq![shell]
    &&& after.solids[solid].name is Some == name is Some
    &&& name is Some ==> after.solids[solid].name->0@ == name->0
    &&& after == Model {
        faces: faces_given_to(before.faces, listed, shell),
        shells: after.shells,
        solids: after.solids,
        ..before
    }
}

/// A sequence of one entry holds that entry.
pub proof fn lemma_singleton<K>(key: K)
    ensures
        seq![key].to_set() == set![key],
{
    assert forall|k: K| seq![key].to_set().contains(k) <==> k == key by {
        assert(seq![key][0] == key);
    }
    assert(seq![key].to_set() =~= set![key]);
}

/// One more entry under a new key.
pub proof fn lemma_extended_step<K, V>(
    before: Map<K, V>,
    now: Map<K, V>,
    added: Seq<K>,
    key: K,
    value: V,
)
    requires
        extended(before, now, added),
        !now.dom().contains(key),
    ensures
        extended(before, now.insert(key, value), added.push(key)),
{
    let more = added.push(key);
    assert forall|k: K| more.to_set().contains(k) <==> added.to_set().contains(k) || k == key by {
        if added.to_set().contains(k) {
            let i = choose|i: int| 0 <= i < added.len() && added[i] == k;
            assert(more[i] == k);
        }
        if more.to_set().contains(k) {
            let i = choose|i: int| 0 <= i < more.len() && more[i] == k;
            if i < added.len() {
                assert(added[i] == k);
            }
        }
        assert(more[added.len() as int] == key);
    }
    assert(now.insert(key, value).dom() =~= before.dom().union(more.to_set()));
    assert forall|i: int| 0 <= i < added.len() implies added[i] != key by {
        assert(added.to_set().contains(added[i]));
    }
    assert forall|i: int| 0 <= i < more.len() implies !before.dom().contains(#[trigger] more[i]) by {
        if i < added.len() {
            assert(more[i] == added[i]);
        }
    }
}

/// Add the planned faces, each with a placeholder loop, and no shell yet.
fn add_faces(brep: &mut BRep, plans: Vec<FacePlan>) -> (ids: (Vec<FaceId>, Ghost<Seq<LoopId>>))
    requires
        old(brep).wf(),
        old(brep)@.faces.dom().len() + plans@.len() <= SLOT_LIMIT,
        old(brep)@.loops.dom().len() + plans@.len() <= SLOT_LIMIT,
    ensures
        final(brep).wf(),
        faces_added(
            old(brep)@,
            final(brep)@,
            plan_views(plans@),
            ids.0@,
            ids.1@,
            ShellId::null(),
        ),
        final(brep)@.faces.dom().len() == old(brep)@.faces.dom().len() + plans@.len(),
        final(brep)@.loops.dom().len() == old(brep)@.loops.dom().len() + plans@.len(),
        final(brep).solids == old(brep).solids,
{
    let ghost before = brep@;
    let ghost kept = brep.solids;
    let ghost given = plans@;
    let ghost all = plan_views(plans@);
    let mut face_ids: Vec<FaceId> = Vec::new();
    let ghost mut loops: Seq<LoopId> = Seq::empty();
    proof {
        assert(face_ids@.to_set() =~= Set::<FaceId>::empty());
        assert(loops.to_set() =~= Set::<LoopId>::empty());
        assert(before.faces.dom().union(face_ids@.to_set()) =~= before.faces.dom());
        assert(before.loops.dom().union(loops.to_set()) =~= before.loops.dom());
    }
    for plan in it: plans
        invariant
            it.seq() == given,
            all == plan_views(given),
            brep.wf(),
            brep.solids == kept,
            before.faces.dom().len() + all.len() <= SLOT_LIMIT,
            before.loops.dom().len() + all.len() <= SLOT_LIMIT,
            brep@.faces.dom().len() == before.faces.dom().len() + it.index(),
            brep@.loops.dom().len() == before.loops.dom().len() + it.index(),
            faces_added(
                before,
                brep@,
                all.take(it.index() as int),
                face_ids@,
                loops,
                ShellId::null(),
            ),
    {
        let ghost now = brep@;
        let ghost i = it.index() as int;
        let loop_id = build_placeholder_loop(brep);
        let face = Face {
            geom: plan.geom,
            normal: plan.normal,
            outer_loop: loop_id,
            inner_loops: Vec::new(),
            shell: ShellId::default(),
            extent: plan.extent,
        };
        let face_id = brep.add_face(face);
        proof {
            lemma_extended_step(before.faces, now.faces, face_ids@, face_id, face);
            lemma_extended_step(before.loops, now.loops, loops, loop_id, placeholder());
            let faces1 = face_ids@.push(face_id);
            let loops1 = loops.push(loop_id);
            assert forall|j: int| 0 <= j < i + 1 implies as_planned(
                #[trigger] brep@.faces[faces1[j]],
                all.take(i + 1)[j],
                loops1[j],
                ShellId::null(),
            ) by {
                if j < i {
                    assert(face_ids@.to_set().contains(face_ids@[j]));
                    assert(now.faces.dom().contains(face_ids@[j]));
                    assert(faces1[j] == face_ids@[j]);
                    assert(loops1[j] == loops[j]);
                    assert(all.take(i)[j] == all.take(i + 1)[j]);
                    assert(as_planned(
                        now.faces[face_ids@[j]],
                        all.take(i)[j],
                        loops[j],
                        ShellId::null(),
                    ));
                }
            }
            assert forall|j: int| 0 <= j < i + 1 implies #[trigger] brep@.loops[loops1[j]]
                == placeholder() by {
                if j < i {
                    assert(loops.to_set().contains(loops[j]));
                    assert(now.loops.dom().contains(loops[j]));
                    assert(loops1[j] == loops[j]);
                    assert(now.loops[loops[j]] == placeholder());
                }
            }
            loops = loops1;
        }
        face_ids.push(face_id);
    }
    assert(all.take(all.len() as int) =~= all);
    (face_ids, Ghost(loops))
}

/// Add a solid of one outer shell with the planned faces, in order.
pub fn build_solid(brep: &mut BRep, plans: Vec<FacePlan>, name: Option<String>) -> (id: SolidId)
    requires
        old(brep).wf(),
        old(brep)@.faces.dom().len() + plans@.len() <= SLOT_LIMIT,
        old(brep)@.loops.dom().len() + plans@.len() <= SLOT_LIMIT,
        old(brep)@.shells.dom().len() < SLOT_LIMIT,
        old(brep)@.solids.dom().len() < SLOT_LIMIT,
    ensures
        final(brep).wf(),
        exists|ids: BuiltIds|
            ids.solid == id && #[trigger] built(
                old(brep)@,
                final(brep)@,
                plan_views(plans@),
                name_view(name),
                ids,
            ),
        final(brep)@.faces.dom().len() == old(brep)@.faces.dom().len() + plans@.len(),
        final(brep)@.loops.dom().len() == old(brep)@.loops.dom().len() + plans@.len(),
        final(brep)@.shells.dom().len() == old(brep)@.shells.dom().len() + 1,
        final(brep)@.solids.dom().len() == old(brep)@.solids.dom().len() + 1,
        forall|k: SolidId| old(brep).solids.spent(k) ==> #[trigger] final(brep).solids.spent(k),
{
    let ghost before = brep@;
    let ghost all = plan_views(plans@);
    let (face_ids, Ghost(loops)) = add_faces(brep, plans);
    let ghost mid = brep@;
    let ghost listed = face_ids@;
    let (shell, id) = assemble_solid(brep, face_ids, name);
    proof {
        let ids = BuiltIds { solid: id, shell, faces: listed, loops };
        let inner = Model { shells: before.shells, solids: before.solids, ..brep@ };
        assert forall|i: int| 0 <= i < all.len() implies as_planned(
            #[trigger] inner.faces[listed[i]],
            all[i],
            loops[i],
            shell,
        ) by {
            assert(listed.to_set().contains(listed[i]));
            assert(mid.faces.dom().contains(listed[i]));
            assert(as_planned(mid.faces[listed[i]], all[i], loops[i], ShellId::null()));
        }
        assert forall|k: FaceId| #[trigger] before.faces.dom().contains(k) implies inner.faces[k]
            == before.faces[k] by {
            assert(mid.faces.dom().contains(k));
            if listed.contains(k) {
                let i = choose|i: int| 0 <= i < listed.len() && listed[i] == k;
                assert(!before.faces.dom().contains(listed[i]));
            }
        }
        assert(inner.faces.dom() =~= mid.faces.dom());
        assert(extended(before.faces, inner.faces, listed));
        assert(faces_added(before, inner, all, listed, loops, shell));
        assert(built(before, brep@, all, name_view(name), ids));
    }
    id
}

/// Giving one more face away.
proof fn lemma_faces_given_to_step(
    faces: Map<FaceId, Face>,
    listed: Seq<FaceId>,
    i: int,
    shell: ShellId,
)
    requires
        0 <= i < listed.len(),
    ensures
        ({
            let now = faces_given_to(faces, listed.take(i), shell);
            faces_given_to(faces, listed.take(i + 1), shell) == if faces.dom().contains(listed[i]) {
                now.insert(listed[i], Face { shell, ..now[listed[i]] })
            } else {
                now
            }
        }),
{
    let shorter = listed.take(i);
    let longer = listed.take(i + 1);
    let now = faces_given_to(faces, shorter, shell);
    let next = faces_given_to(faces, longer, shell);
    assert forall|id: FaceId| longer.contains(id) <==> shorter.contains(id) || id == listed[i] by {
        if shorter.contains(id) {
            let j = choose|j: int| 0 <= j < shorter.len() && shorter[j] == id;
            assert(longer[j] == id);
        }
        if longer.contains(id) {
            let j = choose|j: int| 0 <= j < longer.len() && longer[j] == id;
            if j < i {
                assert(shorter[j] == id);
            }
        }
        assert(longer[i] == listed[i]);
    }
    if faces.dom().contains(listed[i]) {
        assert(next =~= now.insert(listed[i], Face { shell, ..now[listed[i]] }));
    } else {
        assert(next =~= now);
    }
}

} // verus!
