//! The boundary representation: seven arenas of entities.

use vstd::prelude::*;

use crate::arena::{Arena, EntityKey, SLOT_LIMIT, key_order};
use crate::entities::{CoEdge, Edge, Face, Loop, Shell, Solid, Vertex};
use crate::ids::{CoEdgeId, EdgeId, FaceId, LoopId, ShellId, SolidId, VertexId};

verus! {

/// The whole model. An id stays valid until its entity is removed.
pub struct BRep {
    /// The vertices.
    pub vertices: Arena<VertexId, Vertex>,
    /// The edges.
    pub edges: Arena<EdgeId, Edge>,
    /// The co-edges.
    pub coedges: Arena<CoEdgeId, CoEdge>,
    /// The loops.
    pub loops: Arena<LoopId, Loop>,
    /// The faces.
    pub faces: Arena<FaceId, Face>,
    /// The shells.
    pub shells: Arena<ShellId, Shell>,
    /// The solids.
    pub solids: Arena<SolidId, Solid>,
}

/// What a model holds.
#[verifier::ext_equal]
pub struct Model {
    pub vertices: Map<VertexId, Vertex>,
    pub edges: Map<EdgeId, Edge>,
    pub coedges: Map<CoEdgeId, CoEdge>,
    pub loops: Map<LoopId, Loop>,
    pub faces: Map<FaceId, Face>,
    pub shells: Map<ShellId, Shell>,
    pub solids: Map<SolidId, Solid>,
}

/// How many entities of each kind a model holds.
#[derive(Clone, Copy, Debug, PartialEq, Eq, Structural)]
pub struct BRepStats {
    /// Vertices.
    pub vertices: usize,
    /// Edges.
    pub edges: usize,
    /// Co-edges.
    pub coedges: usize,
    /// Loops.
    pub loops: usize,
    /// Faces.
    pub faces: usize,
    /// Shells.
    pub shells: usize,
    /// Solids.
    pub solids: usize,
}

/// The place before `i` on a ring of `n`.
pub open spec fn ring_prev(i: int, n: int) -> int {
    if i == 0 {
        n - 1
    } else {
        i - 1
    }
}

/// The place after `i` on a ring of `n`.
pub open spec fn ring_next(i: int, n: int) -> int {
    if i + 1 == n {
        0
    } else {
        i + 1
    }
}

/// The last of the first `upto` places at which an id stands; -1 if none.
pub open spec fn last_place(ordered: Seq<CoEdgeId>, upto: int, id: CoEdgeId) -> int
    decreases upto,
{
    if upto <= 0 {
        -1
    } else if ordered[upto - 1] == id {
        upto - 1
    } else {
        last_place(ordered, upto - 1, id)
    }
}

/// A co-edge after the first `upto` places of a ring have been linked: its
/// neighbours are those of the last place that names it.
pub open spec fn linked(
    coedges: Map<CoEdgeId, CoEdge>,
    ordered: Seq<CoEdgeId>,
    upto: int,
    id: CoEdgeId,
) -> CoEdge {
    let i = last_place(ordered, upto, id);
    let n = ordered.len() as int;
    if i < 0 {
        coedges[id]
    } else {
        CoEdge {
            prev: ordered[ring_prev(i, n)],
            next: ordered[ring_next(i, n)],
            ..coedges[id]
        }
    }
}

/// The co-edges from `cur` on, along the `next` links, up to the one whose
/// `next` is `start`, but no more than `fuel` links; none if a link leads to
/// no co-edge.
pub open spec fn ring_from(
    coedges: Map<CoEdgeId, CoEdge>,
    start: CoEdgeId,
    cur: CoEdgeId,
    fuel: nat,
) -> Option<Seq<CoEdgeId>>
    decreases fuel,
{
    if !coedges.dom().contains(cur) {
        None
    } else if coedges[cur].next == start || fuel == 0 {
        Some(seq![cur])
    } else {
        match ring_from(coedges, start, coedges[cur].next, (fuel - 1) as nat) {
            None => None,
            Some(rest) => Some(seq![cur] + rest),
        }
    }
}

/// The shells of the solids with the given ids, one solid after the other.
pub open spec fn shells_in_turn(solids: Map<SolidId, Solid>, ids: Seq<SolidId>) -> Seq<ShellId>
    decreases ids.len(),
{
    if ids.len() == 0 {
        Seq::empty()
    } else {
        shells_in_turn(solids, ids.drop_last()) + solids[ids.last()].shells@
    }
}

/// The shells after those named have been given to a solid.
pub open spec fn given_to(
    shells: Map<ShellId, Shell>,
    named: Seq<ShellId>,
    solid: SolidId,
) -> Map<ShellId, Shell> {
    Map::new(
        |id: ShellId| shells.dom().contains(id),
        |id: ShellId|
            if named.contains(id) {
                Shell { solid, ..shells[id] }
            } else {
                shells[id]
            },
    )
}

impl BRep {
    /// What the model holds.
    pub open spec fn view(&self) -> Model {
        Model {
            vertices: self.vertices@,
            edges: self.edges@,
            coedges: self.coedges@,
            loops: self.loops@,
            faces: self.faces@,
            shells: self.shells@,
            solids: self.solids@,
        }
    }

    /// Each arena is in order.
    pub open spec fn wf(&self) -> bool {
        &&& self.vertices.wf()
        &&& self.edges.wf()
        &&& self.coedges.wf()
        &&& self.loops.wf()
        &&& self.faces.wf()
        &&& self.shells.wf()
        &&& self.solids.wf()
    }

    /// Create an empty model.
    pub fn new() -> (brep: BRep)
        ensures
            brep.wf(),
            brep@ == Model::empty(),
    {
        BRep {
            vertices: Arena::new(),
            edges: Arena::new(),
            coedges: Arena::new(),
            loops: Arena::new(),
            faces: Arena::new(),
            shells: Arena::new(),
            solids: Arena::new(),
        }
    }

    /// Add a vertex and return its id.
    pub fn add_vertex(&mut self, v: Vertex) -> (id: VertexId)
        requires
            old(self).wf(),
            old(self)@.vertices.dom().len() < SLOT_LIMIT,
        ensures
            final(self).wf(),
            !old(self)@.vertices.dom().contains(id),
            id != VertexId::null(),
            final(self)@ == (Model { vertices: old(self)@.vertices.insert(id, v), ..old(self)@ }),
            final(self)@.vertices.dom().len() == old(self)@.vertices.dom().len() + 1,
    {
        self.vertices.insert(v)
    }

    /// Add an edge and return its id.
    pub fn add_edge(&mut self, e: Edge) -> (id: EdgeId)
        requires
            old(self).wf(),
            old(self)@.edges.dom().len() < SLOT_LIMIT,
        ensures
            final(self).wf(),
            !old(self)@.edges.dom().contains(id),
            id != EdgeId::null(),
            final(self)@ == (Model { edges: old(self)@.edges.insert(id, e), ..old(self)@ }),
            final(self)@.edges.dom().len() == old(self)@.edges.dom().len() + 1,
    {
        self.edges.insert(e)
    }

    /// Add a co-edge and return its id.
    /// Link it to its neighbours with [`BRep::patch_coedge_links`].
    pub fn add_coedge(&mut self, ce: CoEdge) -> (id: CoEdgeId)
        requires
            old(self).wf(),
            old(self)@.coedges.dom().len() < SLOT_LIMIT,
        ensures
            final(self).wf(),
            !old(self)@.coedges.dom().contains(id),
            id != CoEdgeId::null(),
            final(self)@ == (Model { coedges: old(self)@.coedges.insert(id, ce), ..old(self)@ }),
            final(self)@.coedges.dom().len() == old(self)@.coedges.dom().len() + 1,
    {
        self.coedges.insert(ce)
    }

    /// Add a loop and return its id.
    pub fn add_loop(&mut self, lp: Loop) -> (id: LoopId)
        requires
            old(self).wf(),
            old(self)@.loops.dom().len() < SLOT_LIMIT,
        ensures
            final(self).wf(),
            !old(self)@.loops.dom().contains(id),
            id != LoopId::null(),
            final(self)@ == (Model { loops: old(self)@.loops.insert(id, lp), ..old(self)@ }),
            final(self)@.loops.dom().len() == old(self)@.loops.dom().len() + 1,
            final(self).solids == old(self).solids,
    {
        self.loops.insert(lp)
    }

    /// Add a face and return its id.
    pub fn add_face(&mut self, f: Face) -> (id: FaceId)
        requires
            old(self).wf(),
            old(self)@.faces.dom().len() < SLOT_LIMIT,
        ensures
            final(self).wf(),
            !old(self)@.faces.dom().contains(id),
            id != FaceId::null(),
            final(self)@ == (Model { faces: old(self)@.faces.insert(id, f), ..old(self)@ }),
            final(self)@.faces.dom().len() == old(self)@.faces.dom().len() + 1,
            final(self).solids == old(self).solids,
    {
        self.faces.insert(f)
    }

    /// Add a shell and return its id.
    pub fn add_shell(&mut self, s: Shell) -> (id: ShellId)
        requires
            old(self).wf(),
            old(self)@.shells.dom().len() < SLOT_LIMIT,
        ensures
            final(self).wf(),
            !old(self)@.shells.dom().contains(id),
            id != ShellId::null(),
            final(self)@ == (Model { shells: old(self)@.shells.insert(id, s), ..old(self)@ }),
            final(self)@.shells.dom().len() == old(self)@.shells.dom().len() + 1,
            final(self).solids == old(self).solids,
    {
        self.shells.insert(s)
    }

    /// Add a solid and return its id.
    pub fn add_solid(&mut self, s: Solid) -> (id: SolidId)
        requires
            old(self).wf(),
            old(self)@.solids.dom().len() < SLOT_LIMIT,
        ensures
            final(self).wf(),
            !old(self)@.solids.dom().contains(id),
            id != SolidId::null(),
            final(self)@ == (Model { solids: old(self)@.solids.insert(id, s), ..old(self)@ }),
            final(self)@.solids.dom().len() == old(self)@.solids.dom().len() + 1,
            !old(self).solids.spent(id),
            forall|k: SolidId| old(self).solids.spent(k) ==> #[trigger] final(self).solids.spent(k),
    {
        self.solids.insert(s)
    }

    /// Link the co-edges of a loop to each other, given in the order of
    /// traversal; ids of no co-edge are passed over.
    pub fn patch_coedge_links(&mut self, ordered: &[CoEdgeId])
        requires
            old(self).wf(),
        ensures
            final(self).wf(),
            final(self)@ == (Model { coedges: final(self)@.coedges, ..old(self)@ }),
            final(self)@.coedges.dom() == old(self)@.coedges.dom(),
            forall|id: CoEdgeId| #[trigger]
                old(self)@.coedges.dom().contains(id) ==> final(self)@.coedges[id] == linked(
                    old(self)@.coedges,
                    ordered@,
                    ordered@.len() as int,
                    id,
                ),
    {
        let n: usize = ordered.len();
        let ghost before = self@;
        let mut i: usize = 0;
        while i < n
            invariant
                i <= n,
                n == ordered@.len(),
                self.wf(),
                self@ == (Model { coedges: self@.coedges, ..before }),
                self@.coedges.dom() == before.coedges.dom(),
                forall|id: CoEdgeId| #[trigger]
                    before.coedges.dom().contains(id) ==> self@.coedges[id] == linked(
                        before.coedges,
                        ordered@,
                        i as int,
                        id,
                    ),
            decreases n - i,
        {
            let prev_id = if i == 0 {
                ordered[n - 1]
            } else {
                ordered[i - 1]
            };
            let next_id = if i + 1 == n {
                ordered[0]
            } else {
                ordered[i + 1]
            };
            let ghost mid = self@;
            match self.coedges.get_mut(ordered[i]) {
                Some(ce) => {
                    ce.prev = prev_id;
                    ce.next = next_id;
                },
                None => {},
            }
            i = i + 1;
        }
    }

    /// The co-edges of a loop in the order of traversal; `None` if there is no
    /// such loop, or a link of it leads to no co-edge. A chain that does not
    /// come back to the loop's start is followed for as many links as there
    /// are co-edges.
    pub fn loop_coedges(&self, loop_id: LoopId) -> (ring: Option<Vec<CoEdgeId>>)
        requires
            self.wf(),
        ensures
            match ring {
                Some(ids) => self@.loops.dom().contains(loop_id) && Some(ids@) == ring_from(
                    self@.coedges,
                    self@.loops[loop_id].start,
                    self@.loops[loop_id].start,
                    self@.coedges.dom().len(),
                ),
                None => !self@.loops.dom().contains(loop_id) || ring_from(
                    self@.coedges,
                    self@.loops[loop_id].start,
                    self@.loops[loop_id].start,
                    self@.coedges.dom().len(),
                ) is None,
            },
    {
        let start = match self.loops.get(loop_id) {
            None => {
                return None;
            },
            Some(lp) => lp.start,
        };
        let mut ids: Vec<CoEdgeId> = Vec::new();
        let mut cur = start;
        let limit: usize = self.coedges.len();
        let ghost whole = ring_from(self@.coedges, start, start, limit as nat);
        loop
            invariant
                self.wf(),
                limit == self@.coedges.dom().len(),
                ids@.len() <= limit,
                self@.loops.dom().contains(loop_id),
                start == self@.loops[loop_id].start,
                whole == ring_from(self@.coedges, start, start, limit as nat),
                whole == (match ring_from(
                    self@.coedges,
                    start,
                    cur,
                    (limit - ids@.len()) as nat,
                ) {
                    None => None::<Seq<CoEdgeId>>,
                    Some(rest) => Some(ids@ + rest),
                }),
            decreases limit - ids@.len(),
        {
            let ghost done = ids@;
            ids.push(cur);
            let next = match self.coedges.get(cur) {
                None => {
                    return None;
                },
                Some(ce) => ce.next,
            };
            assert(done + seq![cur] =~= ids@);
            if next == start || ids.len() > limit {
                return Some(ids);
            }
            proof {
                match ring_from(self@.coedges, start, next, (limit - ids@.len()) as nat) {
                    None => {},
                    Some(rest) => {
                        assert(done + (seq![cur] + rest) =~= ids@ + rest);
                    },
                }
            }
            cur = next;
        }
    }

    /// Count the entities.
    pub fn stats(&self) -> (stats: BRepStats)
        requires
            self.wf(),
        ensures
            stats.vertices == self@.vertices.dom().len(),
            stats.edges == self@.edges.dom().len(),
            stats.coedges == self@.coedges.dom().len(),
            stats.loops == self@.loops.dom().len(),
            stats.faces == self@.faces.dom().len(),
            stats.shells == self@.shells.dom().len(),
            stats.solids == self@.solids.dom().len(),
    {
        BRepStats {
            vertices: self.vertices.len(),
            edges: self.edges.len(),
            coedges: self.coedges.len(),
            loops: self.loops.len(),
            faces: self.faces.len(),
            shells: self.shells.len(),
            solids: self.solids.len(),
        }
    }

    /// Merge all solids into one that has all their shells.
    pub fn fuse_solids(&mut self)
        requires
            old(self).wf(),
        ensures
            final(self).wf(),
            old(self)@.solids.dom().len() == 0 ==> final(self)@ == old(self)@,
            old(self)@.solids.dom().len() > 0 ==> exists|id: SolidId| #[trigger]
                fused(old(self)@, final(self)@, id),
    {
        if self.solids.is_empty() {
            return;
        }
        let ghost before = self@;
        let ghost order = key_order(before.solids.dom());
        let entries = self.solids.drain();
        let ghost keys = entries@.map_values(|e: (SolidId, Solid)| e.0);
        let mut all_shells: Vec<ShellId> = Vec::new();
        let mut i: usize = 0;
        while i < entries.len()
            invariant
                i <= entries@.len(),
                order == entries@.map_values(|e: (SolidId, Solid)| e.0),
                all_shells@ == shells_in_turn(before.solids, order.take(i as int)),
                forall|j: int|
                    0 <= j < entries@.len() ==> #[trigger] entries@[j].1
                        == before.solids[entries@[j].0],
            decreases entries@.len() - i,
        {
            let ghost so_far = all_shells@;
            let shells = &entries[i].1.shells;
            let mut j: usize = 0;
            while j < shells.len()
                invariant
                    j <= shells@.len(),
                    all_shells@ == so_far + shells@.take(j as int),
                decreases shells@.len() - j,
            {
                all_shells.push(shells[j]);
                assert(shells@.take(j as int).push(shells@[j as int]) =~= shells@.take(j + 1));
                assert(all_shells@ =~= so_far + shells@.take(j + 1));
                j = j + 1;
            }
            assert(shells@.take(j as int) =~= shells@);
            assert(order[i as int] == entries@[i as int].0);
            assert(order.take(i + 1).drop_last() =~= order.take(i as int));
            i = i + 1;
        }
        assert(order.take(i as int) =~= order);
        let mut listed: Vec<ShellId> = Vec::new();
        let mut k: usize = 0;
        while k < all_shells.len()
            invariant
                k <= all_shells@.len(),
                listed@ == all_shells@.take(k as int),
            decreases all_shells@.len() - k,
        {
            listed.push(all_shells[k]);
            assert(all_shells@.take(k as int).push(all_shells@[k as int]) =~= all_shells@.take(
                k + 1,
            ));
            k = k + 1;
        }
        assert(listed@ =~= all_shells@);
        let solid_id = self.add_solid(
            Solid { shells: all_shells, name: Some("fused_solid".to_owned()) },
        );
        self.give_shells(&listed, solid_id);
        assert(!before.solids.dom().contains(solid_id));
        assert(fused(before, self@, solid_id));
    }

    /// Make shells name a solid as theirs; ids of no shell are passed over.
    pub fn give_shells(&mut self, named: &Vec<ShellId>, solid: SolidId)
        requires
            old(self).wf(),
        ensures
            final(self).wf(),
            final(self)@ == (Model {
                shells: given_to(old(self)@.shells, named@, solid),
                ..old(self)@
            }),
    {
        let ghost before = self@;
        let mut i: usize = 0;
        while i < named.len()
            invariant
                i <= named@.len(),
                self.wf(),
                self@ == (Model {
                    shells: given_to(before.shells, named@.take(i as int), solid),
                    ..before
                }),
            decreases named@.len() - i,
        {
            let ghost mid = self@;
            match self.shells.get_mut(named[i]) {
                Some(shell) => {
                    shell.solid = solid;
                },
                None => {},
            }
            proof {
                lemma_given_to_step(before.shells, named@, i as int, solid);
            }
            i = i + 1;
        }
        assert(named@.take(i as int) =~= named@);
        assert(given_to(before.shells, named@.take(0), solid) =~= before.shells);
    }
}

/// The second model is the first with all its solids fused into a new one: it
/// has their shells, solid after solid in the order of their slots, and
/// those shells name it.
pub open spec fn fused(before: Model, after: Model, id: SolidId) -> bool {
    let all = shells_in_turn(before.solids, key_order(before.solids.dom()));
    &&& id != SolidId::null()
    &&& !before.solids.dom().contains(id)
    &&& after.solids.dom() == set![id]
    &&& after.solids[id].shells@ == all
    &&& after.solids[id].name is Some
    &&& after.solids[id].name->0@ == "fused_solid"@
    &&& after == Model {
        solids: after.solids,
        shells: given_to(before.shells, all, id),
        ..before
    }
}

/// Giving one more shell away.
proof fn lemma_given_to_step(
    shells: Map<ShellId, Shell>,
    named: Seq<ShellId>,
    i: int,
    solid: SolidId,
)
    requires
        0 <= i < named.len(),
    ensures
        ({
            let now = given_to(shells, named.take(i), solid);
            given_to(shells, named.take(i + 1), solid) == if shells.dom().contains(named[i]) {
                now.insert(named[i], Shell { solid, ..now[named[i]] })
            } else {
                now
            }
        }),
{
    let now = given_to(shells, named.take(i), solid);
    let longer = named.take(i + 1);
    let next = given_to(shells, longer, solid);
    assert forall|id: ShellId| longer.contains(id) <==> named.take(i).contains(id) || id
        == named[i] by {
        if named.take(i).contains(id) {
            let j = choose|j: int| 0 <= j < i && named.take(i)[j] == id;
            assert(longer[j] == id);
        }
        if longer.contains(id) {
            let j = choose|j: int| 0 <= j < longer.len() && longer[j] == id;
            if j < i {
                assert(named.take(i)[j] == id);
            }
        }
        assert(longer[i] == named[i]);
    }
    if shells.dom().contains(named[i]) {
        assert(next =~= now.insert(named[i], Shell { solid, ..now[named[i]] }));
    } else {
        assert(next =~= now);
    }
}

impl Default for BRep {
    fn default() -> (brep: BRep)
        ensures
            brep.wf(),
            brep@ == Model::empty(),
    {
        BRep::new()
    }
}

impl Model {
    /// A model without entities.
    pub open spec fn empty() -> Model {
        Model {
            vertices: Map::empty(),
            edges: Map::empty(),
            coedges: Map::empty(),
            loops: Map::empty(),
            faces: Map::empty(),
            shells: Map::empty(),
            solids: Map::empty(),
        }
    }
}

} // verus!
