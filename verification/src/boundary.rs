//! Walking the boundary of a face.

use vstd::prelude::*;

use crate::brep::{BRep, Model, ring_from};
use crate::entities::{CoEdge, CoEdgeSense, Face, FaceExtent, FaceGeom};
use crate::geometry::Point3;
use crate::ids::{CoEdgeId, FaceId, LoopId};
use crate::polyline::{all_below, covers, lemma_thinned, thin, thinned, Apart};
use crate::scalar::Real;

verus! {

/// 1e-9.
pub const POINT_GAP: u64 = 0x3E11_2E0B_E826_D695;

/// The limit under which two samples of a boundary are one point.
pub open spec fn point_gap() -> Real {
    Real { bits: POINT_GAP }
}

/// Whether a loop is there and starts at a co-edge that is there.
pub open spec fn live_loop(model: Model, id: LoopId) -> bool {
    model.loops.dom().contains(id) && model.coedges.dom().contains(model.loops[id].start)
}

/// The co-edges of a loop in order.
pub open spec fn ring_of(model: Model, id: LoopId) -> Option<Seq<CoEdgeId>> {
    ring_from(
        model.coedges,
        model.loops[id].start,
        model.loops[id].start,
        model.coedges.dom().len(),
    )
}

/// Whether the links of a loop lead back to where it starts.
pub open spec fn ring_closes(model: Model, id: LoopId) -> bool {
    match ring_of(model, id) {
        Some(ring) => model.coedges[ring.last()].next == model.loops[id].start,
        None => false,
    }
}

/// The loops of a face, the outer one first.
pub open spec fn loops_of(face: Face) -> Seq<LoopId> {
    seq![face.outer_loop] + face.inner_loops@
}

/// Whether every loop of a face that can be walked leads back to its start.
pub open spec fn loops_close(model: Model, face: Face) -> bool {
    forall|i: int|
        0 <= i < loops_of(face).len() && live_loop(model, #[trigger] loops_of(face)[i])
            ==> ring_closes(model, loops_of(face)[i])
}

/// The rings of the loops that can be walked, among the first `k` of a list.
pub open spec fn live_rings(model: Model, ids: Seq<LoopId>, k: int) -> Seq<Seq<CoEdgeId>>
    decreases k,
{
    if k <= 0 {
        Seq::empty()
    } else if live_loop(model, ids[k - 1]) {
        live_rings(model, ids, k - 1).push(ring_of(model, ids[k - 1])->0)
    } else {
        live_rings(model, ids, k - 1)
    }
}

/// The rings as plain sequences.
pub open spec fn ring_views(rings: Seq<Vec<CoEdgeId>>) -> Seq<Seq<CoEdgeId>> {
    Seq::new(rings.len(), |i: int| rings[i]@)
}

/// Every co-edge of a ring is there.
pub proof fn lemma_ring_is_there(
    coedges: Map<CoEdgeId, CoEdge>,
    start: CoEdgeId,
    cur: CoEdgeId,
    fuel: nat,
)
    ensures
        match ring_from(coedges, start, cur, fuel) {
            Some(ring) => ring.len() > 0 && ring[0] == cur && forall|i: int|
                0 <= i < ring.len() ==> coedges.dom().contains(#[trigger] ring[i]),
            None => true,
        },
    decreases fuel,
{
    if coedges.dom().contains(cur) && coedges[cur].next != start && fuel > 0 {
        lemma_ring_is_there(coedges, start, coedges[cur].next, (fuel - 1) as nat);
    }
}

impl BRep {
    /// Whether a loop is there and starts at a co-edge that is there.
    pub fn loop_is_live(&self, id: LoopId) -> (r: bool)
        requires
            self.wf(),
        ensures
            r == live_loop(self@, id),
    {
        match self.loops.get(id) {
            None => false,
            Some(lp) => self.coedges.get(lp.start).is_some(),
        }
    }

    /// Whether a face has a boundary of its own, rather than one that its
    /// extent implies.
    pub fn has_real_loops(&self, face: FaceId) -> (r: bool)
        requires
            self.wf(),
        ensures
            r == (self@.faces.dom().contains(face) && live_loop(
                self@,
                self@.faces[face].outer_loop,
            )),
    {
        match self.faces.get(face) {
            None => false,
            Some(f) => self.loop_is_live(f.outer_loop),
        }
    }

    /// The co-edges of a face's loops, loop by loop; loops that cannot be
    /// walked are left out.
    pub fn face_rings(&self, face: FaceId) -> (rings: Vec<Vec<CoEdgeId>>)
        requires
            self.wf(),
            self@.faces.dom().contains(face),
            loops_close(self@, self@.faces[face]),
        ensures
            ring_views(rings@) == live_rings(
                self@,
                loops_of(self@.faces[face]),
                loops_of(self@.faces[face]).len() as int,
            ),
    {
        let ghost ids = loops_of(self@.faces[face]);
        let mut rings: Vec<Vec<CoEdgeId>> = Vec::new();
        match self.faces.get(face) {
            None => {},
            Some(f) => {
                let mut k: usize = 0;
                let n: usize = f.inner_loops.len();
                assert(ring_views(rings@) =~= live_rings(self@, ids, 0));
                if self.loop_is_live(f.outer_loop) {
                    assert(ids[0] == f.outer_loop);
                    match self.loop_coedges(f.outer_loop) {
                        None => {},
                        Some(ring) => {
                            let ghost before = rings@;
                            rings.push(ring);
                            assert(ring_views(rings@) =~= ring_views(before).push(ring@));
                        },
                    }
                }
                assert(ring_views(rings@) == live_rings(self@, ids, 1)) by {
                    assert(ids[0] == f.outer_loop);
                    reveal_with_fuel(live_rings, 2);
                }
                while k < n
                    invariant
                        self.wf(),
                        n == f.inner_loops@.len(),
                        k <= n,
                        *f == self@.faces[face],
                        ids == loops_of(*f),
                        loops_close(self@, *f),
                        ring_views(rings@) == live_rings(self@, ids, k + 1),
                    decreases n - k,
                {
                    let id = f.inner_loops[k];
                    assert(ids[k + 1] == id);
                    if self.loop_is_live(id) {
                        match self.loop_coedges(id) {
                            None => {},
                            Some(ring) => {
                                let ghost before = rings@;
                                rings.push(ring);
                                assert(ring_views(rings@) =~= ring_views(before).push(ring@));
                            },
                        }
                    }
                    k += 1;
                }
            },
        }
        rings
    }
}

/// Samples of an edge as a use of it runs.
pub open spec fn oriented(sense: CoEdgeSense, samples: Seq<Point3>) -> Seq<Point3> {
    match sense {
        CoEdgeSense::Same => samples,
        CoEdgeSense::Opposite => samples.reverse(),
    }
}

/// The samples along the first `k` co-edges of a ring.
pub open spec fn walked(
    coedges: Map<CoEdgeId, CoEdge>,
    ring: Seq<CoEdgeId>,
    samples: Seq<Vec<Point3>>,
    k: int,
) -> Seq<Point3>
    decreases k,
{
    if k <= 0 {
        Seq::empty()
    } else {
        walked(coedges, ring, samples, k - 1) + oriented(
            coedges[ring[k - 1]].sense,
            samples[k - 1]@,
        )
    }
}

/// The samples along a ring, given the samples of each of its edges.
pub fn walk_samples(brep: &BRep, ring: &[CoEdgeId], samples: &[Vec<Point3>]) -> (points: Vec<
    Point3,
>)
    requires
        brep.wf(),
        samples@.len() == ring@.len(),
        forall|i: int| 0 <= i < ring@.len() ==> brep@.coedges.dom().contains(#[trigger] ring@[i]),
    ensures
        points@ == walked(brep@.coedges, ring@, samples@, ring@.len() as int),
{
    let mut points: Vec<Point3> = Vec::new();
    let mut k: usize = 0;
    while k < ring.len()
        invariant
            brep.wf(),
            samples@.len() == ring@.len(),
            forall|i: int|
                0 <= i < ring@.len() ==> brep@.coedges.dom().contains(#[trigger] ring@[i]),
            k <= ring@.len(),
            points@ == walked(brep@.coedges, ring@, samples@, k as int),
        decreases ring@.len() - k,
    {
        let ghost done = points@;
        let part: &Vec<Point3> = &samples[k];
        let n: usize = part.len();
        let mut back = false;
        assert(brep@.coedges.dom().contains(ring@[k as int]));
        match brep.coedges.get(ring[k]) {
            None => {},
            Some(ce) => {
                back = ce.sense == CoEdgeSense::Opposite;
            },
        }
        let mut i: usize = 0;
        let ghost whole = oriented(brep@.coedges[ring@[k as int]].sense, part@);
        assert(done =~= done + whole.subrange(0, 0));
        while i < n
            invariant
                n == part@.len(),
                i <= n,
                whole == oriented(brep@.coedges[ring@[k as int]].sense, part@),
                back == (brep@.coedges[ring@[k as int]].sense == CoEdgeSense::Opposite),
                points@ == done + whole.subrange(0, i as int),
            decreases n - i,
        {
            let at: usize = if back {
                n - 1 - i
            } else {
                i
            };
            assert(part@[at as int] == whole[i as int]);
            points.push(part[at]);
            i += 1;
            assert(points@ =~= done + whole.subrange(0, i as int));
        }
        assert(whole.subrange(0, n as int) =~= whole);
        k += 1;
    }
    points
}

/// The numbers below `n`, counting up.
pub open spec fn counting(n: int) -> Seq<usize> {
    Seq::new(n as nat, |i: int| i as usize)
}

/// The numbers below `n`, counting up.
pub fn count_up(n: usize) -> (list: Vec<usize>)
    ensures
        list@ == counting(n as int),
{
    let mut list: Vec<usize> = Vec::new();
    let mut k: usize = 0;
    while k < n
        invariant
            k <= n,
            list@ == counting(k as int),
        decreases n - k,
    {
        list.push(k);
        k += 1;
        assert(list@ =~= counting(k as int));
    }
    list
}

/// Points picked by number.
pub open spec fn picked_points(points: Seq<Point3>, list: Seq<usize>) -> Seq<Point3> {
    Seq::new(list.len(), |i: int| points[list[i] as int])
}

/// The points with the numbers of a list.
pub fn pick_points(points: &[Point3], list: &[usize]) -> (picked: Vec<Point3>)
    requires
        all_below(list@, points@.len() as int),
    ensures
        picked@ == picked_points(points@, list@),
{
    let mut picked: Vec<Point3> = Vec::new();
    let mut k: usize = 0;
    while k < list.len()
        invariant
            all_below(list@, points@.len() as int),
            k <= list@.len(),
            picked@ == picked_points(points@, list@.subrange(0, k as int)),
        decreases list@.len() - k,
    {
        assert(list@[k as int] < points@.len());
        picked.push(points[list[k]]);
        k += 1;
        assert(picked@ =~= picked_points(points@, list@.subrange(0, k as int)));
    }
    assert(list@.subrange(0, list@.len() as int) =~= list@);
    picked
}

/// The corners of a walk round a polygon: samples on the same spot as the one
/// before them are left out, and so is a last one on the spot of the first.
pub open spec fn corners(apart: Seq<Vec<Real>>, n: int) -> Seq<usize> {
    let kept = thinned(apart, Apart::Above(point_gap()), counting(n), n);
    if kept.len() > 1 && apart[kept[0] as int]@[kept.last() as int].below(point_gap()) {
        kept.drop_last()
    } else {
        kept
    }
}

/// The polygon of a planar face: the corners of its template, the samples of
/// its circle, or a walk round its outer loop.
pub open spec fn region(
    model: Model,
    face: Face,
    disk: Seq<Point3>,
    walk: Seq<Point3>,
    apart: Seq<Vec<Real>>,
) -> Option<Seq<Point3>> {
    match (face.geom, face.extent) {
        (_, FaceExtent::Polygon { points }) => Some(points@),
        (FaceGeom::Plane(_), FaceExtent::Disk { .. }) => Some(disk),
        _ => if live_loop(model, face.outer_loop) && corners(apart, walk.len() as int).len() >= 3 {
            Some(picked_points(walk, corners(apart, walk.len() as int)))
        } else {
            None
        },
    }
}

/// The polygon that bounds a planar face.  `disk` samples the rim of a disk,
/// `walk` the outer loop, and `apart` holds the distances between any two
/// samples of `walk`; each is read only where the face calls for it.
pub fn region_polygon(
    brep: &BRep,
    face: FaceId,
    disk: &[Point3],
    walk: &[Point3],
    apart: &Vec<Vec<Real>>,
) -> (polygon: Option<Vec<Point3>>)
    requires
        brep.wf(),
        brep@.faces.dom().contains(face),
        covers(apart@, walk@.len() as int),
    ensures
        match polygon {
            Some(p) => region(brep@, brep@.faces[face], disk@, walk@, apart@) == Some(p@),
            None => region(brep@, brep@.faces[face], disk@, walk@, apart@) is None,
        },
{
    match brep.faces.get(face) {
        None => None,
        Some(f) => {
            match &f.extent {
                FaceExtent::Polygon { points } => {
                    let every = count_up(points.len());
                    let copy = pick_points(points, &every);
                    assert(copy@ =~= points@);
                    return Some(copy);
                },
                FaceExtent::Disk { .. } => {
                    match f.geom {
                        FaceGeom::Plane(_) => {
                            let every = count_up(disk.len());
                            let copy = pick_points(disk, &every);
                            assert(copy@ =~= disk@);
                            return Some(copy);
                        },
                        _ => {},
                    }
                },
                _ => {},
            }
            if !brep.loop_is_live(f.outer_loop) {
                return None;
            }
            let n: usize = walk.len();
            let every = count_up(n);
            assert(all_below(every@, n as int));
            let mut kept = thin(apart, Apart::Above(Real { bits: POINT_GAP }), &every);
            proof {
                lemma_thinned(apart@, Apart::Above(point_gap()), every@, n as int, n as int);
            }
            if kept.len() > 1 {
                let first: usize = kept[0];
                let last: usize = kept[kept.len() - 1];
                assert(kept@.last() == last);
                assert(apart@[first as int]@.len() >= n);
                if apart[first][last].lt(Real { bits: POINT_GAP }) {
                    let ghost whole = kept@;
                    kept.pop();
                    assert(kept@ =~= whole.drop_last());
                }
            }
            if kept.len() >= 3 {
                Some(pick_points(walk, &kept))
            } else {
                None
            }
        },
    }
}

} // verus!
