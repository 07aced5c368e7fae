//! Fusing filaments that cross into one shell.
//!
//! Every pair of members whose boxes overlap is traced once; each crossing that
//! is accepted is cut as a window with one id into both members, so that they
//! share its edges. Each end of a leg has a group of its own, so that it shares
//! its circle with its cap or bend and with nothing else.

use vstd::prelude::*;

use crate::arena::SLOT_LIMIT;
use crate::assembly::{
    AsmState, Assembler, CircleUse, Mark, UseView, Window, bend_extent, face_made,
    grown_by_face, marks_fit, marks_uses, room_for, tube_inner, window_fits,
};
use crate::bounds::reversible;
use crate::brep::{BRep, Model};
use crate::entities::{FaceExtent, FaceGeom, FaceNormal};
use crate::geometry::{CylSurf, Frame3, Plane3, Point3, TorusSurf};
use crate::ids::{FaceId, ShellId, SolidId};
use crate::scalar::Real;
use crate::solid::{assemble_solid, assembled};

verus! {

/// 0.985: legs with a larger absolute cosine are parallel.
pub const NEAR_PARALLEL: u64 = 0x3fef851eb851eb85;

/// -0.15: how far before an arc a point may be (radians).
pub const BEFORE_ARC: u64 = 0xbfc3333333333333;

/// 1e-9: a smaller arc is none; a smaller gap is none.
pub const NOTHING: u64 = 0x3e112e0be826d695;

/// A crossing curve of a part that is to be safe at its rims, or that is not
/// between legs of different filaments, has at least so many points.
pub const FLOOR: usize = 12;

/// Any other crossing curve has at least so many.
pub const LOW_FLOOR: usize = 6;

/// A straight leg of a filament, from the frame's origin along its z.
#[derive(Clone, Copy, Debug, PartialEq, Eq, Structural)]
pub struct LegSeg {
    /// The tube.
    pub surf: CylSurf,
    /// Its length.
    pub length: Real,
}

/// A bend of a filament.
#[derive(Clone, Copy, Debug, PartialEq, Eq, Structural)]
pub struct ElbowSeg {
    /// The tube.
    pub surf: TorusSurf,
    /// Where the bend starts.
    pub theta_lo: Real,
    /// Where it ends.
    pub theta_hi: Real,
}

/// A filament: legs, with a bend between each and the next.
#[derive(Debug)]
pub struct Filament {
    /// The legs, in order.
    pub legs: Vec<LegSeg>,
    /// The bends: bend `i` joins legs `i` and `i + 1`.
    pub elbows: Vec<ElbowSeg>,
}

/// A part of a filament.
#[derive(Clone, Copy, Debug, PartialEq, Eq, Structural)]
pub enum TubePart {
    /// A leg.
    Leg(LegSeg),
    /// A bend.
    Elbow(ElbowSeg),
}

/// Where a leg runs.
#[derive(Clone, Copy, Debug, PartialEq, Eq, Structural)]
pub struct Span {
    pub start: Point3,
    pub end: Point3,
}

/// A rounded corner of a path: where its arc starts and ends, and the bend
/// there.
#[derive(Clone, Copy, Debug, PartialEq, Eq, Structural)]
pub struct Corner {
    pub entry: Point3,
    pub exit: Point3,
    pub elbow: ElbowSeg,
}

/// Where a leg runs, and the leg there.
#[derive(Clone, Copy, Debug, PartialEq, Eq, Structural)]
pub struct Run {
    pub span: Span,
    pub leg: LegSeg,
}

/// The leg of a run, from where the run starts.
pub open spec fn run_leg(run: Run) -> LegSeg {
    LegSeg {
        surf: CylSurf {
            frame: Frame3 { origin: run.span.start, ..run.leg.surf.frame },
            radius: run.leg.surf.radius,
        },
        length: run.leg.length,
    }
}

/// The legs of a path with rounded corners: from the first vertex or the end of
/// the corner before, to the start of the corner after or the last vertex.
pub open spec fn spans(verts: Seq<Point3>, corners: Seq<Corner>) -> Seq<Span> {
    Seq::new(
        (verts.len() - 1) as nat,
        |k: int|
            Span {
                start: if k == 0 {
                    verts[0]
                } else {
                    corners[k - 1].exit
                },
                end: if k + 1 == verts.len() - 1 {
                    verts.last()
                } else {
                    corners[k].entry
                },
            },
    )
}

/// Where the legs of a path with rounded corners run; `corners[i]` is at
/// vertex `i + 1`.
pub fn leg_spans(verts: &[Point3], corners: &[Corner]) -> (legs: Vec<Span>)
    requires
        verts@.len() >= 2,
        corners@.len() + 2 == verts@.len(),
    ensures
        legs@ == spans(verts@, corners@),
{
    let n: usize = verts.len();
    let mut legs: Vec<Span> = Vec::new();
    let mut k: usize = 0;
    while k < n - 1
        invariant
            k <= n - 1,
            n == verts@.len(),
            n >= 2,
            corners@.len() + 2 == n,
            legs@ == spans(verts@, corners@).take(k as int),
        decreases n - 1 - k,
    {
        let start = if k == 0 {
            verts[0]
        } else {
            corners[k - 1].exit
        };
        let end = if k + 1 == n - 1 {
            verts[n - 1]
        } else {
            corners[k].entry
        };
        legs.push(Span { start, end });
        assert(legs@ =~= spans(verts@, corners@).take(k + 1));
        k = k + 1;
    }
    assert(legs@ =~= spans(verts@, corners@));
    legs
}

impl Filament {
    /// The parts of the filament: its legs, then its bends.
    pub open spec fn parts(&self) -> Seq<TubePart> {
        Seq::new(
            self.legs@.len() + self.elbows@.len(),
            |i: int|
                if i < self.legs@.len() {
                    TubePart::Leg(self.legs@[i])
                } else {
                    TubePart::Elbow(self.elbows@[i - self.legs@.len()])
                },
        )
    }

    /// The filament along a path with rounded corners: a leg on each stretch
    /// between them, from where it starts, and a bend in each.  `corners[i]` is
    /// at vertex `i + 1`, and `runs` holds the legs on the stretches that
    /// [`leg_spans`] gives.
    pub fn serpentine(verts: &[Point3], corners: &[Corner], runs: &[Run]) -> (filament: Filament)
        requires
            verts@.len() >= 2,
            corners@.len() + 2 == verts@.len(),
            runs@.len() + 1 == verts@.len(),
            forall|k: int|
                0 <= k < runs@.len() ==> (#[trigger] runs@[k]).span == spans(verts@, corners@)[k],
        ensures
            filament.legs@ == Seq::new(runs@.len(), |k: int| run_leg(runs@[k])),
            forall|k: int|
                0 <= k < runs@.len() ==> (#[trigger] filament.legs@[k]).surf.frame.origin == spans(
                    verts@,
                    corners@,
                )[k].start,
            filament.elbows@ == Seq::new(corners@.len(), |k: int| corners@[k].elbow),
            filament.elbows@.len() + 1 == filament.legs@.len(),
    {
        let mut legs: Vec<LegSeg> = Vec::new();
        let mut i: usize = 0;
        let ghost all_legs = Seq::new(runs@.len(), |k: int| run_leg(runs@[k]));
        while i < runs.len()
            invariant
                i <= runs@.len(),
                all_legs == Seq::new(runs@.len(), |k: int| run_leg(runs@[k])),
                legs@ == all_legs.take(i as int),
            decreases runs@.len() - i,
        {
            let run = runs[i];
            let frame = Frame3 { origin: run.span.start, ..run.leg.surf.frame };
            let surf = CylSurf { frame, radius: run.leg.surf.radius };
            legs.push(LegSeg { surf, length: run.leg.length });
            i = i + 1;
            assert(legs@ =~= all_legs.take(i as int));
        }
        let mut elbows: Vec<ElbowSeg> = Vec::new();
        let mut j: usize = 0;
        let ghost all_elbows = Seq::new(corners@.len(), |k: int| corners@[k].elbow);
        while j < corners.len()
            invariant
                j <= corners@.len(),
                all_elbows == Seq::new(corners@.len(), |k: int| corners@[k].elbow),
                elbows@ == all_elbows.take(j as int),
            decreases corners@.len() - j,
        {
            elbows.push(corners[j].elbow);
            j = j + 1;
            assert(elbows@ =~= all_elbows.take(j as int));
        }
        assert(legs@ =~= all_legs);
        assert(elbows@ =~= all_elbows);
        Filament { legs, elbows }
    }

    /// The parts of the filament: its legs, then its bends.
    pub fn tube(&self) -> (parts: Vec<TubePart>)
        ensures
            parts@ == self.parts(),
    {
        let mut parts: Vec<TubePart> = Vec::new();
        let mut i: usize = 0;
        while i < self.legs.len()
            invariant
                i <= self.legs@.len(),
                parts@ == self.parts().take(i as int),
            decreases self.legs@.len() - i,
        {
            parts.push(TubePart::Leg(self.legs[i]));
            assert(parts@ =~= self.parts().take(i + 1));
            i = i + 1;
        }
        let mut j: usize = 0;
        while j < self.elbows.len()
            invariant
                j <= self.elbows@.len(),
                parts@ == self.parts().take(self.legs@.len() + j),
            decreases self.elbows@.len() - j,
        {
            parts.push(TubePart::Elbow(self.elbows[j]));
            assert(parts@ =~= self.parts().take(self.legs@.len() + j + 1));
            j = j + 1;
        }
        assert(parts@ =~= self.parts());
        parts
    }
}

/// Every how many points one is kept, so that few enough are.
pub open spec fn stride(n: int, max: int) -> int {
    (n + max - 1) / max
}

/// How many points are kept.
pub open spec fn kept_count(n: int, max: int) -> int {
    (n + stride(n, max) - 1) / stride(n, max)
}

/// A loop with at most `max` points: every so many of them from the first on,
/// and the last. If the last comes on top of as many as there may be, it takes
/// the place of the one before it.
pub open spec fn decimated(points: Seq<Point3>, max: int, gap: Real) -> Seq<Point3> {
    let n = points.len() as int;
    if n <= max || max < 2 {
        points
    } else {
        let kept = Seq::new(
            kept_count(n, max) as nat,
            |i: int| points[i * stride(n, max)],
        );
        if !(Real { bits: NOTHING }).below(gap) {
            kept
        } else if kept.len() < max {
            kept.push(points.last())
        } else {
            kept.drop_last().push(points.last())
        }
    }
}

/// A loop with at most `max` points, its first and its last among them; `gap`
/// is the distance from the last point that a regular stride keeps to the last
/// of all.
pub fn decimate_loop(points: &[Point3], max: usize, gap: Real) -> (out: Vec<Point3>)
    ensures
        out@ == decimated(points@, max as int, gap),
        max >= 2 ==> out@.len() <= max,
        points@.len() > 0 ==> out@.len() > 0 && out@[0] == points@[0],
{
    let n: usize = points.len();
    let mut out: Vec<Point3> = Vec::new();
    if n <= max || max < 2 {
        let mut i: usize = 0;
        while i < n
            invariant
                i <= n,
                n == points@.len(),
                out@ == points@.take(i as int),
            decreases n - i,
        {
            out.push(points[i]);
            assert(out@ =~= points@.take(i + 1));
            i = i + 1;
        }
        assert(out@ =~= points@);
        return out;
    }
    let step: usize = (n - 1) / max + 1;
    assert(step == stride(n as int, max as int)) by (nonlinear_arith)
        requires
            2 <= max < n,
            step == (n - 1) / (max as int) + 1,
            stride(n as int, max as int) == (n + max - 1) / (max as int),
    ;
    let ghost count = kept_count(n as int, max as int);
    proof {
        lemma_stride(n as int, max as int);
    }
    let ghost kept = Seq::new(count as nat, |i: int| points@[i * (step as int)]);
    let mut i: usize = 0;
    let ghost mut k: int = 0;
    while i < n
        invariant
            n == points@.len(),
            0 < step <= n,
            count == (n + step - 1) / (step as int),
            0 <= k <= count,
            i == k * step || (k == count && i == n),
            i < n ==> k < count,
            n - (count - 1) * step > 0,
            count * step >= n,
            kept == Seq::new(count as nat, |i: int| points@[i * (step as int)]),
            out@ == kept.take(k),
        decreases n - i,
    {
        assert(k * step == i) by {
            if k == count {
                assert(i == n);
            }
        }
        out.push(points[i]);
        assert(out@ =~= kept.take(k + 1));
        proof {
            assert((k + 1) * step == k * step + step) by (nonlinear_arith);
        }
        if n - i <= step {
            proof {
                assert(k + 1 == count) by (nonlinear_arith)
                    requires
                        n - k * step <= step,
                        k * step < n,
                        n - (count - 1) * step > 0,
                        count * step >= n,
                        step > 0,
                        k < count,
                ;
            }
            i = n;
        } else {
            i = i + step;
            proof {
                assert(k + 1 < count) by (nonlinear_arith)
                    requires
                        (k + 1) * step < n,
                        count * step >= n,
                        step > 0,
                ;
            }
        }
        proof {
            k = k + 1;
        }
    }
    assert(k == count) by {
        if k < count {
            assert(k * step <= (count - 1) * step) by (nonlinear_arith)
                requires
                    k <= count - 1,
                    step > 0,
            ;
        }
    }
    assert(out@ =~= kept);
    assert(kept =~= Seq::new(
        kept_count(n as int, max as int) as nat,
        |i: int| points@[i * stride(n as int, max as int)],
    ));
    assert(kept[0] == points@[0]) by {
        assert(0 * (step as int) == 0);
    }
    if gap.gt(Real { bits: NOTHING }) {
        if out.len() >= max {
            let last = out.pop();
            assert(out@ =~= kept.drop_last());
        }
        out.push(points[n - 1]);
    }
    out
}

/// A stride keeps at least two points and at most so many.
proof fn lemma_stride(n: int, max: int)
    requires
        2 <= max < n,
    ensures
        2 <= stride(n, max) <= n,
        2 <= kept_count(n, max) <= max,
        n - (kept_count(n, max) - 1) * stride(n, max) > 0,
        kept_count(n, max) * stride(n, max) >= n,
{
    let s = stride(n, max);
    assert(s * max >= n && s >= 2 && s < n) by (nonlinear_arith)
        requires
            2 <= max < n,
            s == (n + max - 1) / max,
    ;
    let c = kept_count(n, max);
    assert(c * s >= n && (c - 1) * s < n && c <= max && c >= 2) by (nonlinear_arith)
        requires
            2 <= s < n,
            s * max >= n,
            c == (n + s - 1) / s,
    ;
}

/// A box along the axes.
#[derive(Clone, Copy, Debug, PartialEq, Eq, Structural)]
pub struct Aabb {
    /// The corner with the smallest coordinates.
    pub min: Point3,
    /// The corner with the largest.
    pub max: Point3,
}

impl Aabb {
    /// Whether two boxes have a point in common.
    pub open spec fn meets(self, other: Aabb) -> bool {
        &&& self.min.x.at_most(other.max.x) && other.min.x.at_most(self.max.x)
        &&& self.min.y.at_most(other.max.y) && other.min.y.at_most(self.max.y)
        &&& self.min.z.at_most(other.max.z) && other.min.z.at_most(self.max.z)
    }

    /// Whether two boxes have a point in common.
    pub fn overlaps(&self, other: &Aabb) -> (r: bool)
        ensures
            r == self.meets(*other),
            r == other.meets(*self),
    {
        self.min.x.le(other.max.x) && other.min.x.le(self.max.x) && self.min.y.le(other.max.y)
            && other.min.y.le(self.max.y) && self.min.z.le(other.max.z) && other.min.z.le(
            self.max.z,
        )
    }
}

/// A window against the ends of a leg, measured.
#[derive(Clone, Copy, Debug, PartialEq, Eq, Structural)]
pub struct RimSheet {
    /// Where the window's centre is along the leg.
    pub along: Real,
    /// The radius of the sphere about the window.
    pub radius: Real,
    /// The leg's length less that radius.
    pub last: Real,
}

/// Whether a window keeps its distance from the ends of a leg that are free.
pub open spec fn clears(rim: RimSheet, free_start: bool, free_end: bool) -> bool {
    (!free_start || rim.radius.below(rim.along)) && (!free_end || rim.along.below(rim.last))
}

/// Whether a window keeps its distance from the ends of a leg that are free.
pub fn window_clears_free_ends(rim: RimSheet, free_start: bool, free_end: bool) -> (r: bool)
    ensures
        r == clears(rim, free_start, free_end),
{
    (!free_start || rim.along.gt(rim.radius)) && (!free_end || rim.along.lt(rim.last))
}

/// The points of a crossing against a bend, measured.
#[derive(Debug)]
pub struct BendSheet {
    /// The angle of the bend, without its sign.
    pub sweep: Real,
    /// The same and a margin.
    pub limit: Real,
    /// The angle of each point from the start of the bend, along it.
    pub angles: Vec<Real>,
}

/// Whether every point of a crossing is on the bend, or within a margin of it.
pub open spec fn within_arc(arc: BendSheet) -> bool {
    !arc.sweep.below(Real { bits: NOTHING }) && forall|i: int|
        0 <= i < arc.angles@.len() ==> (Real { bits: BEFORE_ARC }).below(#[trigger] arc.angles@[i])
            && arc.angles@[i].below(arc.limit)
}

/// Whether every point of a crossing is on the bend, or within a margin of it.
pub fn points_within_arc(arc: &BendSheet) -> (r: bool)
    ensures
        r == within_arc(*arc),
{
    if arc.sweep.lt(Real { bits: NOTHING }) {
        return false;
    }
    let mut i: usize = 0;
    while i < arc.angles.len()
        invariant
            i <= arc.angles@.len(),
            forall|j: int|
                0 <= j < i ==> (Real { bits: BEFORE_ARC }).below(#[trigger] arc.angles@[j])
                    && arc.angles@[j].below(arc.limit),
        decreases arc.angles@.len() - i,
    {
        if !arc.angles[i].gt(Real { bits: BEFORE_ARC }) || !arc.angles[i].lt(arc.limit) {
            return false;
        }
        i = i + 1;
    }
    true
}

/// A part of some filament that may be crossed.
#[derive(Clone, Copy, Debug, PartialEq, Eq, Structural)]
pub enum Member {
    /// Leg `i` of filament `f`.
    Leg { f: usize, i: usize },
    /// Bend `i` of filament `f`.
    Elbow { f: usize, i: usize },
}

/// Two members that are to be traced: the first is a leg or a bend, the second
/// a leg.
#[derive(Clone, Copy, Debug, PartialEq, Eq, Structural)]
pub enum Pairing {
    /// Legs of different filaments.
    Between,
    /// Legs of one filament.
    Within,
    /// A bend and a leg.
    Elbow,
}

/// Two members that may cross.
#[derive(Clone, Copy, Debug, PartialEq, Eq, Structural)]
pub struct Pair {
    /// What they are.
    pub kind: Pairing,
    /// The filament of the first.
    pub fi: usize,
    /// Its place there.
    pub i: usize,
    /// The filament of the second.
    pub fj: usize,
    /// Its place there.
    pub j: usize,
}

impl Pair {
    /// The first member.
    pub open spec fn one(self) -> Member {
        match self.kind {
            Pairing::Elbow => Member::Elbow { f: self.fi, i: self.i },
            _ => Member::Leg { f: self.fi, i: self.i },
        }
    }

    /// The second member.
    pub open spec fn other(self) -> Member {
        Member::Leg { f: self.fj, i: self.j }
    }

    /// The first member.
    pub fn first(&self) -> (m: Member)
        ensures
            m == self.one(),
    {
        match self.kind {
            Pairing::Elbow => Member::Elbow { f: self.fi, i: self.i },
            _ => Member::Leg { f: self.fi, i: self.i },
        }
    }

    /// The second member.
    pub fn second(&self) -> (m: Member)
        ensures
            m == self.other(),
    {
        Member::Leg { f: self.fj, i: self.j }
    }
}

/// The boxes of the members of one kind, for each filament.
pub open spec fn boxes_view(boxes: Seq<Vec<Aabb>>) -> Seq<Seq<Aabb>> {
    Seq::new(boxes.len(), |f: int| boxes[f]@)
}

/// Whether two members are neither joined by a bend nor the same, and their
/// boxes meet.
pub open spec fn admitted(
    kind: Pairing,
    fi: int,
    i: int,
    fj: int,
    j: int,
    one: Aabb,
    other: Aabb,
) -> bool {
    &&& match kind {
        Pairing::Between => true,
        Pairing::Within => i + 2 <= j,
        Pairing::Elbow => !(fi == fj && (j == i || j == i + 1)),
    }
    &&& one.meets(other)
}

/// The pairs of a member with the first `k` legs of a filament.
pub open spec fn row(
    kind: Pairing,
    fi: int,
    i: int,
    fj: int,
    one: Aabb,
    legs: Seq<Aabb>,
    k: int,
) -> Seq<Pair>
    decreases k,
{
    if k <= 0 {
        seq![]
    } else {
        let so_far = row(kind, fi, i, fj, one, legs, k - 1);
        if admitted(kind, fi, i, fj, k - 1, one, legs[k - 1]) {
            so_far.push(
                Pair {
                    kind,
                    fi: fi as usize,
                    i: i as usize,
                    fj: fj as usize,
                    j: (k - 1) as usize,
                },
            )
        } else {
            so_far
        }
    }
}

/// The pairs of the first `k` legs of one filament with the legs of another, or
/// of the same.
pub open spec fn leg_rows(
    kind: Pairing,
    fi: int,
    fj: int,
    legs: Seq<Seq<Aabb>>,
    k: int,
) -> Seq<Pair>
    decreases k,
{
    if k <= 0 {
        seq![]
    } else {
        leg_rows(kind, fi, fj, legs, k - 1) + row(
            kind,
            fi,
            k - 1,
            fj,
            legs[fi][k - 1],
            legs[fj],
            legs[fj].len() as int,
        )
    }
}

/// The pairs of the legs of one filament with those of the later ones among the
/// first `k`.
pub open spec fn later_rows(fi: int, legs: Seq<Seq<Aabb>>, k: int) -> Seq<Pair>
    decreases k,
{
    if k <= 0 || k <= fi + 1 {
        seq![]
    } else {
        later_rows(fi, legs, k - 1) + leg_rows(
            Pairing::Between,
            fi,
            k - 1,
            legs,
            legs[fi].len() as int,
        )
    }
}

/// The pairs of legs of different filaments, for the first `k` filaments.
pub open spec fn between_pairs(legs: Seq<Seq<Aabb>>, k: int) -> Seq<Pair>
    decreases k,
{
    if k <= 0 {
        seq![]
    } else {
        between_pairs(legs, k - 1) + later_rows(k - 1, legs, legs.len() as int)
    }
}

/// The pairs of legs of one filament, for the first `k` filaments.
pub open spec fn within_pairs(legs: Seq<Seq<Aabb>>, k: int) -> Seq<Pair>
    decreases k,
{
    if k <= 0 {
        seq![]
    } else {
        within_pairs(legs, k - 1) + leg_rows(
            Pairing::Within,
            k - 1,
            k - 1,
            legs,
            legs[k - 1].len() as int,
        )
    }
}

/// The pairs of a bend with the legs of the first `k` filaments.
pub open spec fn bend_rows(
    fi: int,
    ei: int,
    one: Aabb,
    legs: Seq<Seq<Aabb>>,
    k: int,
) -> Seq<Pair>
    decreases k,
{
    if k <= 0 {
        seq![]
    } else {
        bend_rows(fi, ei, one, legs, k - 1) + row(
            Pairing::Elbow,
            fi,
            ei,
            k - 1,
            one,
            legs[k - 1],
            legs[k - 1].len() as int,
        )
    }
}

/// The pairs of the first `k` bends of a filament with all legs.
pub open spec fn bends_rows(
    fi: int,
    elbows: Seq<Seq<Aabb>>,
    legs: Seq<Seq<Aabb>>,
    k: int,
) -> Seq<Pair>
    decreases k,
{
    if k <= 0 {
        seq![]
    } else {
        bends_rows(fi, elbows, legs, k - 1) + bend_rows(
            fi,
            k - 1,
            elbows[fi][k - 1],
            legs,
            legs.len() as int,
        )
    }
}

/// The pairs of bends and legs, for the bends of the first `k` filaments.
pub open spec fn elbow_pairs(elbows: Seq<Seq<Aabb>>, legs: Seq<Seq<Aabb>>, k: int) -> Seq<Pair>
    decreases k,
{
    if k <= 0 {
        seq![]
    } else {
        elbow_pairs(elbows, legs, k - 1) + bends_rows(
            k - 1,
            elbows,
            legs,
            elbows[k - 1].len() as int,
        )
    }
}

/// All pairs that may cross, in the order in which they are traced: legs of
/// different filaments, then, unless these are all, legs of one filament, then
/// bends and legs.
pub open spec fn all_pairs(
    legs: Seq<Seq<Aabb>>,
    elbows: Seq<Seq<Aabb>>,
    extra: bool,
) -> Seq<Pair> {
    let n = legs.len() as int;
    if extra {
        between_pairs(legs, n) + within_pairs(legs, n) + elbow_pairs(elbows, legs, n)
    } else {
        between_pairs(legs, n)
    }
}

/// Add the pairs of a member with the legs of a filament.
fn push_row(
    out: &mut Vec<Pair>,
    kind: Pairing,
    fi: usize,
    i: usize,
    fj: usize,
    one: Aabb,
    legs: &Vec<Aabb>,
)
    requires
        i < usize::MAX - 2,
    ensures
        final(out)@ == old(out)@ + row(
            kind,
            fi as int,
            i as int,
            fj as int,
            one,
            legs@,
            legs@.len() as int,
        ),
{
    let ghost before = out@;
    let mut j: usize = 0;
    assert(before + row(kind, fi as int, i as int, fj as int, one, legs@, 0) =~= before);
    while j < legs.len()
        invariant
            j <= legs@.len(),
            i < usize::MAX - 2,
            out@ == before + row(
                kind,
                fi as int,
                i as int,
                fj as int,
                one,
                legs@,
                j as int,
            ),
        decreases legs@.len() - j,
    {
        let apart = match kind {
            Pairing::Between => true,
            Pairing::Within => i + 2 <= j,
            Pairing::Elbow => !(fi == fj && (j == i || j == i + 1)),
        };
        if apart && one.overlaps(&legs[j]) {
            out.push(Pair { kind, fi, i, fj, j });
        }
        assert(out@ =~= before + row(
            kind,
            fi as int,
            i as int,
            fj as int,
            one,
            legs@,
            j + 1,
        ));
        j = j + 1;
    }
}

/// Add the pairs of the legs of one filament with those of another, or of the
/// same.
fn push_leg_rows(
    out: &mut Vec<Pair>,
    kind: Pairing,
    fi: usize,
    fj: usize,
    legs: &Vec<Vec<Aabb>>,
)
    requires
        fi < legs@.len(),
        fj < legs@.len(),
        legs@[fi as int]@.len() < usize::MAX - 2,
    ensures
        final(out)@ == old(out)@ + leg_rows(
            kind,
            fi as int,
            fj as int,
            boxes_view(legs@),
            legs@[fi as int]@.len() as int,
        ),
{
    let ghost before = out@;
    let ghost all = boxes_view(legs@);
    let n: usize = legs[fi].len();
    let mut i: usize = 0;
    assert(before + leg_rows(kind, fi as int, fj as int, all, 0) =~= before);
    while i < n
        invariant
            i <= n,
            n == legs@[fi as int]@.len(),
            n < usize::MAX - 2,
            fi < legs@.len(),
            fj < legs@.len(),
            all == boxes_view(legs@),
            out@ == before + leg_rows(kind, fi as int, fj as int, all, i as int),
        decreases n - i,
    {
        let one = legs[fi][i];
        push_row(out, kind, fi, i, fj, one, &legs[fj]);
        assert(out@ =~= before + leg_rows(kind, fi as int, fj as int, all, i + 1));
        i = i + 1;
    }
}

/// Whether no filament has too many members to be counted.
pub open spec fn countable(boxes: Seq<Vec<Aabb>>) -> bool {
    forall|f: int| 0 <= f < boxes.len() ==> (#[trigger] boxes[f])@.len() < usize::MAX - 2
}

/// All pairs that may cross, in the order in which they are traced.
pub fn crossing_pairs(legs: &Vec<Vec<Aabb>>, elbows: &Vec<Vec<Aabb>>, extra: bool) -> (pairs: Vec<
    Pair,
>)
    requires
        elbows@.len() == legs@.len(),
        countable(legs@),
        countable(elbows@),
        legs@.len() < usize::MAX,
    ensures
        pairs@ == all_pairs(boxes_view(legs@), boxes_view(elbows@), extra),
{
    let n: usize = legs.len();
    let ghost lv = boxes_view(legs@);
    let ghost ev = boxes_view(elbows@);
    let mut out: Vec<Pair> = Vec::new();
    let mut fi: usize = 0;
    while fi < n
        invariant
            fi <= n,
            n == legs@.len(),
            n < usize::MAX,
            countable(legs@),
            lv == boxes_view(legs@),
            out@ == between_pairs(lv, fi as int),
        decreases n - fi,
    {
        let ghost before = out@;
        let mut fj: usize = fi + 1;
        assert(before + later_rows(fi as int, lv, fj as int) =~= before);
        while fj < n
            invariant
                fi < n,
                fi + 1 <= fj <= n,
                n == legs@.len(),
                countable(legs@),
                lv == boxes_view(legs@),
                out@ == before + later_rows(fi as int, lv, fj as int),
            decreases n - fj,
        {
            assert(legs@[fi as int]@.len() < usize::MAX - 2);
            push_leg_rows(&mut out, Pairing::Between, fi, fj, legs);
            assert(out@ =~= before + later_rows(fi as int, lv, fj + 1));
            fj = fj + 1;
        }
        fi = fi + 1;
    }
    if !extra {
        return out;
    }
    let ghost first = out@;
    let mut f: usize = 0;
    assert(first + within_pairs(lv, 0) =~= first);
    while f < n
        invariant
            f <= n,
            n == legs@.len(),
            countable(legs@),
            lv == boxes_view(legs@),
            out@ == first + within_pairs(lv, f as int),
        decreases n - f,
    {
        assert(legs@[f as int]@.len() < usize::MAX - 2);
        push_leg_rows(&mut out, Pairing::Within, f, f, legs);
        assert(out@ =~= first + within_pairs(lv, f + 1));
        f = f + 1;
    }
    let ghost second = out@;
    let mut g: usize = 0;
    assert(second + elbow_pairs(ev, lv, 0) =~= second);
    while g < n
        invariant
            g <= n,
            n == legs@.len(),
            elbows@.len() == n,
            countable(legs@),
            countable(elbows@),
            lv == boxes_view(legs@),
            ev == boxes_view(elbows@),
            out@ == second + elbow_pairs(ev, lv, g as int),
        decreases n - g,
    {
        let ghost before = out@;
        let m: usize = elbows[g].len();
        let mut e: usize = 0;
        assert(elbows@[g as int]@.len() < usize::MAX - 2);
        assert(before + bends_rows(g as int, ev, lv, 0) =~= before);
        while e < m
            invariant
                e <= m,
                g < n,
                n == legs@.len(),
                elbows@.len() == n,
                m == elbows@[g as int]@.len(),
                m < usize::MAX - 2,
                countable(legs@),
                lv == boxes_view(legs@),
                ev == boxes_view(elbows@),
                out@ == before + bends_rows(g as int, ev, lv, e as int),
            decreases m - e,
        {
            let ghost so_far = out@;
            let one = elbows[g][e];
            let mut h: usize = 0;
            assert(so_far + bend_rows(g as int, e as int, one, lv, 0) =~= so_far);
            while h < n
                invariant
                    h <= n,
                    n == legs@.len(),
                    e < m < usize::MAX - 2,
                    lv == boxes_view(legs@),
                    out@ == so_far + bend_rows(g as int, e as int, one, lv, h as int),
                decreases n - h,
            {
                push_row(&mut out, Pairing::Elbow, g, e, h, one, &legs[h]);
                assert(out@ =~= so_far + bend_rows(g as int, e as int, one, lv, h + 1));
                h = h + 1;
            }
            assert(out@ =~= before + bends_rows(g as int, ev, lv, e + 1));
            e = e + 1;
        }
        assert(out@ =~= second + elbow_pairs(ev, lv, g + 1));
        g = g + 1;
    }
    assert(out@ =~= all_pairs(lv, ev, extra));
    out
}

/// A crossing curve of two members, measured.
#[derive(Debug)]
pub struct Crossing {
    /// The members.
    pub pair: Pair,
    /// The cosine between their axes; of no account for a bend.
    pub cos: Real,
    /// How many points the curve has as traced.
    pub count: usize,
    /// The curve against the first member's ends; of no account for a bend.
    pub first_rim: RimSheet,
    /// The curve against the second member's ends.
    pub second_rim: RimSheet,
    /// Whether the curve is on the bend; of no account for two legs.
    pub in_arc: bool,
    /// How the curve faces on the first member.
    pub first_facing: Real,
    /// How the curve faces on the second member.
    pub second_facing: Real,
    /// The window that it makes; it gets its id when it is accepted.
    pub window: Window,
}

/// How near a crossing is to another, measured.
#[derive(Clone, Copy, Debug, PartialEq, Eq, Structural)]
pub struct Nearness {
    /// The distance between the two centres.
    pub distance: Real,
    /// The distance at which the spheres about the two windows meet.
    pub reach: Real,
}

/// A window in a member.
#[derive(Clone, Copy, Debug, PartialEq, Eq, Structural)]
pub struct Imprint {
    /// The member.
    pub member: Member,
    /// The window.
    pub mark: Mark,
    /// The crossing that it comes from.
    pub origin: usize,
}

/// What the crossings so far come to: the windows accepted, by the crossing
/// that each comes from, and where they are cut.
#[verifier::ext_equal]
pub struct ImprintState {
    pub origins: Seq<usize>,
    pub log: Seq<Imprint>,
}

/// Whether a crossing would overlap a window that is in a member already.
pub open spec fn overlaps(
    log: Seq<Imprint>,
    member: Member,
    near: Seq<Vec<Nearness>>,
    n: int,
) -> bool {
    exists|i: int|
        0 <= i < log.len() && (#[trigger] log[i]).member == member && {
            let pair = near[n]@[log[i].origin as int];
            pair.distance.below(pair.reach)
        }
}

/// Whether a crossing is cut as a window. Nearly parallel legs of one filament,
/// and of two if rims are to be safe, do not cross; a curve has enough points;
/// one on a bend stays on it; and if rims are to be safe, a window keeps its
/// distance from the ends of legs and from other windows.
pub open spec fn accepted(
    state: ImprintState,
    c: Crossing,
    near: Seq<Vec<Nearness>>,
    n: int,
    strict: bool,
) -> bool {
    let parallel = (Real { bits: NEAR_PARALLEL }).below(c.cos.unsigned());
    let crowded = overlaps(state.log, c.pair.one(), near, n) || overlaps(
        state.log,
        c.pair.other(),
        near,
        n,
    );
    let free = clears(c.first_rim, true, true) && clears(c.second_rim, true, true) && !crowded;
    match c.pair.kind {
        Pairing::Between => !(strict && parallel) && c.count >= (if strict {
            FLOOR
        } else {
            LOW_FLOOR
        }) && (strict ==> free),
        Pairing::Within => !parallel && c.count >= FLOOR && (strict ==> free),
        Pairing::Elbow => c.count >= FLOOR && c.in_arc && (strict ==> clears(
            c.second_rim,
            true,
            true,
        ) && !crowded),
    }
}

/// One crossing more: if it is accepted, its window gets the next id and is cut
/// into both members.
pub open spec fn imprinted(
    state: ImprintState,
    c: Crossing,
    near: Seq<Vec<Nearness>>,
    n: int,
    strict: bool,
) -> ImprintState {
    if accepted(state, c, near, n, strict) {
        let id = state.origins.len() as usize;
        ImprintState {
            origins: state.origins.push(n as usize),
            log: state.log.push(
                Imprint {
                    member: c.pair.one(),
                    mark: Mark { crossing: id, facing: c.first_facing },
                    origin: n as usize,
                },
            ).push(
                Imprint {
                    member: c.pair.other(),
                    mark: Mark { crossing: id, facing: c.second_facing },
                    origin: n as usize,
                },
            ),
        }
    } else {
        state
    }
}

/// What the first `n` crossings come to.
pub open spec fn imprints(
    all: Seq<Crossing>,
    near: Seq<Vec<Nearness>>,
    strict: bool,
    n: int,
) -> ImprintState
    decreases n,
{
    if n <= 0 {
        ImprintState { origins: seq![], log: seq![] }
    } else {
        imprinted(imprints(all, near, strict, n - 1), all[n - 1], near, n - 1, strict)
    }
}

/// The windows that were accepted, and where they are cut.
#[derive(Debug)]
pub struct Imprints {
    /// The windows, by id.
    pub crossings: Vec<Window>,
    /// The crossing that each comes from.
    pub origins: Vec<usize>,
    /// Where they are cut.
    pub log: Vec<Imprint>,
}

/// Whether a window is that of a crossing, with an id.
pub open spec fn window_of(window: Window, c: Crossing, id: int) -> bool {
    &&& window.id == id
    &&& window.points == c.window.points
    &&& window.closing == c.window.closing
    &&& window.mids == c.window.mids
}

/// Whether a crossing would overlap a window that is in a member already.
fn overlaps_existing(
    log: &Vec<Imprint>,
    member: Member,
    near: &Vec<Vec<Nearness>>,
    n: usize,
) -> (r: bool)
    requires
        n < near@.len(),
        forall|i: int| 0 <= i < log@.len() ==> (#[trigger] log@[i]).origin < near@[n as int]@.len(),
    ensures
        r == overlaps(log@, member, near@, n as int),
{
    let mut i: usize = 0;
    while i < log.len()
        invariant
            i <= log@.len(),
            n < near@.len(),
            forall|i: int|
                0 <= i < log@.len() ==> (#[trigger] log@[i]).origin < near@[n as int]@.len(),
            forall|j: int|
                0 <= j < i && (#[trigger] log@[j]).member == member ==> !{
                    let pair = near@[n as int]@[log@[j].origin as int];
                    pair.distance.below(pair.reach)
                },
        decreases log@.len() - i,
    {
        let entry = log[i];
        if entry.member == member {
            let pair = near[n][entry.origin];
            if pair.distance.lt(pair.reach) {
                assert(log@[i as int].member == member);
                return true;
            }
        }
        i = i + 1;
    }
    false
}

/// Whether a crossing is cut as a window.
fn accept(
    log: &Vec<Imprint>,
    c: &Crossing,
    near: &Vec<Vec<Nearness>>,
    n: usize,
    strict: bool,
    Ghost(state): Ghost<ImprintState>,
) -> (r: bool)
    requires
        n < near@.len(),
        log@ == state.log,
        forall|i: int| 0 <= i < log@.len() ==> (#[trigger] log@[i]).origin < near@[n as int]@.len(),
    ensures
        r == accepted(state, *c, near@, n as int, strict),
{
    let parallel = c.cos.abs().gt(Real { bits: NEAR_PARALLEL });
    match c.pair.kind {
        Pairing::Between => {
            if strict && parallel {
                return false;
            }
            let floor: usize = if strict {
                FLOOR
            } else {
                LOW_FLOOR
            };
            if c.count < floor {
                return false;
            }
        },
        Pairing::Within => {
            if parallel || c.count < FLOOR {
                return false;
            }
        },
        Pairing::Elbow => {
            if c.count < FLOOR || !c.in_arc {
                return false;
            }
        },
    }
    if !strict {
        return true;
    }
    let first_clear = match c.pair.kind {
        Pairing::Elbow => true,
        _ => window_clears_free_ends(c.first_rim, true, true),
    };
    first_clear && window_clears_free_ends(c.second_rim, true, true) && !overlaps_existing(
        log,
        c.pair.first(),
        near,
        n,
    ) && !overlaps_existing(log, c.pair.second(), near, n)
}

/// Whether there is a nearness for every two of so many crossings.
pub open spec fn square(near: Seq<Vec<Nearness>>, n: int) -> bool {
    near.len() == n && forall|i: int| 0 <= i < n ==> (#[trigger] near[i])@.len() == n
}

/// Decide which crossings are cut, in order, and where. `near[m][n]` says how
/// near crossing `m` is to the window of crossing `n`.
pub fn imprint_crossings(all: Vec<Crossing>, near: &Vec<Vec<Nearness>>, strict: bool) -> (result:
    Imprints)
    requires
        square(near@, all@.len() as int),
        all@.len() <= u32::MAX,
    ensures
        ({
            let state = imprints(all@, near@, strict, all@.len() as int);
            &&& result.origins@ == state.origins
            &&& result.log@ == state.log
            &&& result.crossings@.len() == state.origins.len()
            &&& forall|k: int|
                0 <= k < result.crossings@.len() ==> window_of(
                    #[trigger] result.crossings@[k],
                    all@[state.origins[k] as int],
                    k,
                )
        }),
{
    let ghost given = all@;
    let mut crossings: Vec<Window> = Vec::new();
    let mut origins: Vec<usize> = Vec::new();
    let mut log: Vec<Imprint> = Vec::new();
    let mut n: usize = 0;
    for c in it: all
        invariant
            it.seq() == given,
            n == it.index(),
            given.len() <= u32::MAX,
            square(near@, given.len() as int),
            (ImprintState { origins: origins@, log: log@ }) == imprints(
                given,
                near@,
                strict,
                n as int,
            ),
            origins@.len() <= n,
            crossings@.len() == origins@.len(),
            forall|i: int| 0 <= i < log@.len() ==> (#[trigger] log@[i]).origin < n,
            forall|k: int| 0 <= k < origins@.len() ==> (#[trigger] origins@[k]) < n,
            forall|k: int|
                0 <= k < crossings@.len() ==> window_of(
                    #[trigger] crossings@[k],
                    given[origins@[k] as int],
                    k,
                ),
    {
        let ghost state = ImprintState { origins: origins@, log: log@ };
        assert(near@[n as int]@.len() == given.len());
        if accept(&log, &c, near, n, strict, Ghost(state)) {
            let id: usize = origins.len();
            log.push(
                Imprint {
                    member: c.pair.first(),
                    mark: Mark { crossing: id, facing: c.first_facing },
                    origin: n,
                },
            );
            log.push(
                Imprint {
                    member: c.pair.second(),
                    mark: Mark { crossing: id, facing: c.second_facing },
                    origin: n,
                },
            );
            origins.push(n);
            crossings.push(
                Window {
                    id: id as u32,
                    points: c.window.points,
                    closing: c.window.closing,
                    mids: c.window.mids,
                },
            );
        }
        n = n + 1;
    }
    Imprints { crossings, origins, log }
}

/// How often a window with a given id is cut, among some entries.
pub open spec fn times_cut(log: Seq<Imprint>, id: int) -> nat
    decreases log.len(),
{
    if log.len() == 0 {
        0
    } else {
        times_cut(log.drop_last(), id) + (if log.last().mark.crossing == id {
            1nat
        } else {
            0
        })
    }
}

/// Every window that is accepted is cut exactly twice, once into each of the
/// two members that cross there; no other window has its id.
pub proof fn law_windows_are_cut_twice(
    all: Seq<Crossing>,
    near: Seq<Vec<Nearness>>,
    strict: bool,
    n: int,
    id: int,
)
    requires
        0 <= n <= all.len(),
        all.len() <= u32::MAX,
    ensures
        ({
            let state = imprints(all, near, strict, n);
            &&& state.log.len() == 2 * state.origins.len()
            &&& state.origins.len() <= n
            &&& times_cut(state.log, id) == (if 0 <= id < state.origins.len() {
                2nat
            } else {
                0
            })
            &&& 0 <= id < state.origins.len() ==> {
                let c = all[state.origins[id] as int];
                let one = state.log[2 * id];
                let two = state.log[2 * id + 1];
                &&& state.origins[id] < n
                &&& one.mark.crossing == id && one.member == c.pair.one()
                &&& two.mark.crossing == id && two.member == c.pair.other()
            }
        }),
    decreases n,
{
    if n > 0 {
        law_windows_are_cut_twice(all, near, strict, n - 1, id);
        let before = imprints(all, near, strict, n - 1);
        let after = imprints(all, near, strict, n);
        if accepted(before, all[n - 1], near, n - 1, strict) {
            let mid = after.log.drop_last();
            assert(mid.drop_last() =~= before.log);
            reveal_with_fuel(times_cut, 3);
        }
    }
}

/// A leg with its ends, measured.
#[derive(Clone, Copy, Debug)]
pub struct LegSheet {
    /// The leg.
    pub leg: LegSeg,
    /// The circle at its start; the group is set when the leg is emitted.
    pub rim_in: CircleUse,
    /// The circle at its end.
    pub rim_out: CircleUse,
    /// The plane across its start, looking out.
    pub cap_in: Plane3,
    /// The plane across its end, looking out.
    pub cap_out: Plane3,
}

/// A filament with the ends of its legs, measured.
#[derive(Debug)]
pub struct FilamentSheet {
    /// The legs, in order.
    pub legs: Vec<LegSheet>,
    /// The bends: bend `i` joins legs `i` and `i + 1`.
    pub elbows: Vec<ElbowSeg>,
}

/// A face that is to be assembled.
#[verifier::ext_equal]
pub struct AsmFace {
    pub geom: FaceGeom,
    pub extent: FaceExtent,
    pub outer: Seq<UseView>,
    pub inner: Seq<Seq<UseView>>,
}

/// A circle in a group.
pub open spec fn grouped(c: CircleUse, group: int) -> CircleUse {
    CircleUse { group: group as u32, ..c }
}

/// The group of the start of leg `i`, where `base` legs come before the
/// filament.
pub open spec fn group_in(base: int, i: int) -> int {
    2 * (base + i)
}

/// The group of the end of leg `i`.
pub open spec fn group_out(base: int, i: int) -> int {
    2 * (base + i) + 1
}

/// The windows of a member, in the order in which they were cut.
pub open spec fn marks_of(log: Seq<Imprint>, member: Member) -> Seq<Mark>
    decreases log.len(),
{
    if log.len() == 0 {
        seq![]
    } else if log.last().member == member {
        marks_of(log.drop_last(), member).push(log.last().mark)
    } else {
        marks_of(log.drop_last(), member)
    }
}

/// The tube of leg `i` of filament `f`.
pub open spec fn leg_face(
    sheet: LegSheet,
    f: int,
    base: int,
    i: int,
    crossings: Seq<Window>,
    log: Seq<Imprint>,
) -> AsmFace {
    AsmFace {
        geom: FaceGeom::Cylinder(sheet.leg.surf),
        extent: FaceExtent::Trimmed,
        outer: seq![UseView::Circle(grouped(sheet.rim_in, group_in(base, i)))],
        inner: tube_inner(
            grouped(sheet.rim_out, group_out(base, i)),
            crossings,
            marks_of(log, Member::Leg { f: f as usize, i: i as usize }),
        ),
    }
}

/// A disk over a circle.
pub open spec fn cap_face(plane: Plane3, rim: CircleUse) -> AsmFace {
    AsmFace {
        geom: FaceGeom::Plane(plane),
        extent: FaceExtent::Disk { radius: rim.circle.radius },
        outer: seq![UseView::Circle(rim)],
        inner: seq![],
    }
}

/// The tube of bend `i` of filament `f`: from the end of leg `i` to the start
/// of the next.
pub open spec fn elbow_face(
    sheet: FilamentSheet,
    f: int,
    base: int,
    i: int,
    crossings: Seq<Window>,
    log: Seq<Imprint>,
) -> AsmFace {
    let marks = marks_of(log, Member::Elbow { f: f as usize, i: i as usize });
    let from = grouped(sheet.legs@[i].rim_out, group_out(base, i));
    let to = grouped(sheet.legs@[i + 1].rim_in, group_in(base, i + 1));
    AsmFace {
        geom: FaceGeom::Torus(sheet.elbows@[i].surf),
        extent: bend_extent(from.circle, to.circle, marks),
        outer: seq![UseView::Circle(from)],
        inner: tube_inner(to, crossings, marks),
    }
}

/// The faces of the first `k` legs of a filament: each tube, with a disk at the
/// first start and at the last end.
pub open spec fn leg_faces(
    sheet: FilamentSheet,
    f: int,
    base: int,
    crossings: Seq<Window>,
    log: Seq<Imprint>,
    k: int,
) -> Seq<AsmFace>
    decreases k,
{
    if k <= 0 {
        seq![]
    } else {
        let i = k - 1;
        let leg = sheet.legs@[i];
        let tube = leg_faces(sheet, f, base, crossings, log, i).push(
            leg_face(leg, f, base, i, crossings, log),
        );
        let started = if i == 0 {
            tube.push(cap_face(leg.cap_in, grouped(leg.rim_in, group_in(base, i))))
        } else {
            tube
        };
        if k == sheet.legs@.len() {
            started.push(cap_face(leg.cap_out, grouped(leg.rim_out, group_out(base, i))))
        } else {
            started
        }
    }
}

/// The faces of the first `k` bends of a filament.
pub open spec fn elbow_faces(
    sheet: FilamentSheet,
    f: int,
    base: int,
    crossings: Seq<Window>,
    log: Seq<Imprint>,
    k: int,
) -> Seq<AsmFace>
    decreases k,
{
    if k <= 0 {
        seq![]
    } else {
        elbow_faces(sheet, f, base, crossings, log, k - 1).push(
            elbow_face(sheet, f, base, k - 1, crossings, log),
        )
    }
}

/// How many legs the first `k` filaments have.
pub open spec fn leg_base(sheets: Seq<FilamentSheet>, k: int) -> int
    decreases k,
{
    if k <= 0 {
        0
    } else {
        leg_base(sheets, k - 1) + sheets[k - 1].legs@.len()
    }
}

/// The faces of the first `k` filaments: of each its legs, then its bends.
pub open spec fn scaffold_faces(
    sheets: Seq<FilamentSheet>,
    crossings: Seq<Window>,
    log: Seq<Imprint>,
    k: int,
) -> Seq<AsmFace>
    decreases k,
{
    if k <= 0 {
        seq![]
    } else {
        let f = k - 1;
        let base = leg_base(sheets, f);
        let sheet = sheets[f];
        scaffold_faces(sheets, crossings, log, f) + leg_faces(
            sheet,
            f,
            base,
            crossings,
            log,
            sheet.legs@.len() as int,
        ) + elbow_faces(sheet, f, base, crossings, log, sheet.elbows@.len() as int)
    }
}

/// Faces were assembled, one after the other.
pub open spec fn faces_made(
    s: AsmState,
    t: AsmState,
    faces: Seq<AsmFace>,
    ids: Seq<FaceId>,
) -> bool
    decreases faces.len(),
{
    if faces.len() == 0 {
        t == s && ids.len() == 0
    } else {
        &&& ids.len() == faces.len()
        &&& exists|m: AsmState|
            faces_made(s, m, faces.drop_last(), ids.drop_last()) && #[trigger] face_made(
                m,
                t,
                faces.last().geom,
                FaceNormal::Same,
                faces.last().extent,
                faces.last().outer,
                faces.last().inner,
                ids.last(),
            )
    }
}

/// How many uses of edges faces need at most.
pub open spec fn uses_needed(faces: Seq<AsmFace>) -> nat
    decreases faces.len(),
{
    if faces.len() == 0 {
        0
    } else {
        uses_needed(faces.drop_last()) + 1 + 4 * faces.last().inner.len()
    }
}

/// How many loops faces need.
pub open spec fn loops_needed(faces: Seq<AsmFace>) -> nat
    decreases faces.len(),
{
    if faces.len() == 0 {
        0
    } else {
        loops_needed(faces.drop_last()) + 1 + faces.last().inner.len()
    }
}

/// Whether a model has room for faces.
pub open spec fn room_for_faces(model: Model, faces: Seq<AsmFace>) -> bool {
    &&& room_for(model, uses_needed(faces))
    &&& model.loops.dom().len() + loops_needed(faces) <= SLOT_LIMIT
    &&& model.faces.dom().len() + faces.len() <= SLOT_LIMIT
}

/// A model has grown by no more than faces need.
pub open spec fn grown_by_faces(before: Model, after: Model, faces: Seq<AsmFace>) -> bool {
    let uses = uses_needed(faces);
    &&& after.vertices.dom().len() <= before.vertices.dom().len() + 2 * uses
    &&& after.edges.dom().len() <= before.edges.dom().len() + uses
    &&& after.coedges.dom().len() <= before.coedges.dom().len() + uses
    &&& after.loops.dom().len() == before.loops.dom().len() + loops_needed(faces)
    &&& after.faces.dom().len() == before.faces.dom().len() + faces.len()
}

/// Whether a filament has the legs that its bends join, and its circles can be
/// keyed.
pub open spec fn filament_fits(sheet: FilamentSheet) -> bool {
    &&& sheet.elbows@.len() == 0 || sheet.elbows@.len() < sheet.legs@.len()
    &&& forall|i: int|
        0 <= i < sheet.legs@.len() ==> reversible((#[trigger] sheet.legs@[i]).rim_in.axis)
            && reversible(sheet.legs@[i].rim_out.axis)
}

/// Whether every window that is cut is there and can be cut.
pub open spec fn log_fits(crossings: Seq<Window>, log: Seq<Imprint>) -> bool {
    forall|i: int|
        0 <= i < log.len() ==> (#[trigger] log[i]).mark.crossing < crossings.len() && window_fits(
            crossings[log[i].mark.crossing as int],
        )
}

proof fn lemma_marks_fit(crossings: Seq<Window>, log: Seq<Imprint>, member: Member)
    requires
        log_fits(crossings, log),
    ensures
        marks_fit(crossings, marks_of(log, member)),
    decreases log.len(),
{
    if log.len() > 0 {
        assert(log_fits(crossings, log.drop_last())) by {
            assert forall|i: int| 0 <= i < log.len() - 1 implies (#[trigger] log.drop_last()[i])
                .mark.crossing < crossings.len() && window_fits(
                crossings[log.drop_last()[i].mark.crossing as int],
            ) by {
                assert(log.drop_last()[i] == log[i]);
            }
        }
        lemma_marks_fit(crossings, log.drop_last(), member);
        assert(log[log.len() - 1].mark.crossing < crossings.len());
    }
}

/// The windows of a member, in the order in which they were cut.
fn marks_on(log: &Vec<Imprint>, member: Member) -> (marks: Vec<Mark>)
    ensures
        marks@ == marks_of(log@, member),
{
    let mut marks: Vec<Mark> = Vec::new();
    let mut i: usize = 0;
    while i < log.len()
        invariant
            i <= log@.len(),
            marks@ == marks_of(log@.take(i as int), member),
        decreases log@.len() - i,
    {
        assert(log@.take(i + 1).drop_last() =~= log@.take(i as int));
        if log[i].member == member {
            marks.push(log[i].mark);
        }
        i = i + 1;
    }
    assert(log@.take(i as int) =~= log@);
    marks
}

/// One more face.
proof fn lemma_faces_step(
    s: AsmState,
    m: AsmState,
    t: AsmState,
    faces: Seq<AsmFace>,
    ids: Seq<FaceId>,
    face: AsmFace,
    id: FaceId,
)
    requires
        faces_made(s, m, faces, ids),
        face_made(
            m,
            t,
            face.geom,
            FaceNormal::Same,
            face.extent,
            face.outer,
            face.inner,
            id,
        ),
    ensures
        faces_made(s, t, faces.push(face), ids.push(id)),
        uses_needed(faces.push(face)) == uses_needed(faces) + 1 + 4 * face.inner.len(),
        loops_needed(faces.push(face)) == loops_needed(faces) + 1 + face.inner.len(),
{
    lemma_faces_len(s, m, faces, ids);
    let more = faces.push(face);
    let more_ids = ids.push(id);
    assert(more.drop_last() =~= faces);
    assert(more_ids.drop_last() =~= ids);
    assert(more.last() == face);
    assert(more_ids.last() == id);
    assert(face_made(
        m,
        t,
        more.last().geom,
        FaceNormal::Same,
        more.last().extent,
        more.last().outer,
        more.last().inner,
        more_ids.last(),
    ));
}

proof fn lemma_faces_len(s: AsmState, m: AsmState, faces: Seq<AsmFace>, ids: Seq<FaceId>)
    requires
        faces_made(s, m, faces, ids),
    ensures
        faces.len() == ids.len(),
{
}

/// Needs go up with the faces.
proof fn lemma_needs_prefix(head: Seq<AsmFace>, whole: Seq<AsmFace>)
    requires
        head.len() <= whole.len(),
        whole.take(head.len() as int) == head,
    ensures
        uses_needed(head) <= uses_needed(whole),
        loops_needed(head) <= loops_needed(whole),
    decreases whole.len() - head.len(),
{
    if head.len() < whole.len() {
        let n = head.len() as int;
        let longer = whole.take(n + 1);
        assert(longer.drop_last() =~= head);
        assert(whole.take(longer.len() as int) =~= longer);
        lemma_needs_prefix(longer, whole);
    } else {
        assert(whole.take(head.len() as int) =~= whole);
    }
}

/// What the faces of a scaffold have come to so far.
spec fn in_progress(
    before: AsmState,
    now: AsmState,
    whole: Seq<AsmFace>,
    done: Seq<AsmFace>,
    ids: Seq<FaceId>,
) -> bool {
    &&& faces_made(before, now, done, ids)
    &&& room_for_faces(before.model, whole)
    &&& grown_by_faces(before.model, now.model, done)
    &&& done.len() <= whole.len()
    &&& whole.take(done.len() as int) == done
}

/// Some more faces stand in the whole behind those that are done.
spec fn follows(whole: Seq<AsmFace>, done: Seq<AsmFace>, more: Seq<AsmFace>) -> bool {
    &&& done.len() + more.len() <= whole.len()
    &&& whole.subrange(done.len() as int, (done.len() + more.len()) as int) == more
}

/// There is room for the next face.
proof fn lemma_room_for_next(
    before: AsmState,
    now: AsmState,
    whole: Seq<AsmFace>,
    done: Seq<AsmFace>,
    ids: Seq<FaceId>,
    face: AsmFace,
)
    requires
        in_progress(before, now, whole, done, ids),
        done.len() < whole.len(),
        whole[done.len() as int] == face,
    ensures
        room_for(now.model, 1 + 4 * face.inner.len()),
        now.model.loops.dom().len() + 1 + face.inner.len() <= SLOT_LIMIT,
        now.model.faces.dom().len() < SLOT_LIMIT,
{
    let next = done.push(face);
    assert(whole.take(next.len() as int) =~= next);
    lemma_needs_prefix(next, whole);
    assert(next.drop_last() =~= done);
}

/// The next face has been made.
proof fn lemma_next_made(
    before: AsmState,
    now: AsmState,
    then: AsmState,
    whole: Seq<AsmFace>,
    done: Seq<AsmFace>,
    ids: Seq<FaceId>,
    face: AsmFace,
    id: FaceId,
    uses: nat,
)
    requires
        in_progress(before, now, whole, done, ids),
        done.len() < whole.len(),
        whole[done.len() as int] == face,
        face_made(
            now,
            then,
            face.geom,
            FaceNormal::Same,
            face.extent,
            face.outer,
            face.inner,
            id,
        ),
        uses <= 1 + 4 * face.inner.len(),
        grown_by_face(now.model, then.model, uses, 1 + face.inner.len()),
    ensures
        in_progress(before, then, whole, done.push(face), ids.push(id)),
{
    lemma_faces_step(before, now, then, done, ids, face, id);
    assert(whole.take((done.len() + 1) as int) =~= done.push(face));
}

proof fn lemma_tube_inner_len(far: CircleUse, crossings: Seq<Window>, marks: Seq<Mark>, k: int)
    requires
        0 <= k,
    ensures
        marks_uses(crossings, marks, k).len() == k,
        tube_inner(far, crossings, marks).len() == marks_uses(
            crossings,
            marks,
            marks.len() as int,
        ).len() + 1,
    decreases k,
{
    if k > 0 {
        lemma_tube_inner_len(far, crossings, marks, k - 1);
    }
}

/// Assemble the legs of a filament.
fn emit_legs(
    assembler: &mut Assembler,
    brep: &mut BRep,
    sheet: &FilamentSheet,
    f: usize,
    base: usize,
    crossings: &Vec<Window>,
    log: &Vec<Imprint>,
    Ghost(before): Ghost<AsmState>,
    Ghost(whole): Ghost<Seq<AsmFace>>,
    Ghost(done): Ghost<Seq<AsmFace>>,
)
    requires
        old(brep).wf(),
        filament_fits(*sheet),
        log_fits(crossings@, log@),
        2 * (base + sheet.legs@.len()) <= u32::MAX,
        in_progress(
            before,
            old(assembler).state(old(brep)),
            whole,
            done,
            old(assembler).made(),
        ),
        follows(
            whole,
            done,
            leg_faces(
                *sheet,
                f as int,
                base as int,
                crossings@,
                log@,
                sheet.legs@.len() as int,
            ),
        ),
    ensures
        final(brep).wf(),
        in_progress(
            before,
            final(assembler).state(final(brep)),
            whole,
            done + leg_faces(
                *sheet,
                f as int,
                base as int,
                crossings@,
                log@,
                sheet.legs@.len() as int,
            ),
            final(assembler).made(),
        ),
{
    let n: usize = sheet.legs.len();
    let ghost all = leg_faces(*sheet, f as int, base as int, crossings@, log@, n as int);
    let mut i: usize = 0;
    assert(done + leg_faces(*sheet, f as int, base as int, crossings@, log@, 0) =~= done);
    while i < n
        invariant
            i <= n,
            n == sheet.legs@.len(),
            brep.wf(),
            filament_fits(*sheet),
            log_fits(crossings@, log@),
            2 * (base + n) <= u32::MAX,
            all == leg_faces(*sheet, f as int, base as int, crossings@, log@, n as int),
            follows(whole, done, all),
            in_progress(
                before,
                assembler.state(brep),
                whole,
                done + leg_faces(
                    *sheet,
                    f as int,
                    base as int,
                    crossings@,
                    log@,
                    i as int,
                ),
                assembler.made(),
            ),
        decreases n - i,
    {
        let ghost so_far = leg_faces(
            *sheet,
            f as int,
            base as int,
            crossings@,
            log@,
            i as int,
        );
        let leg = sheet.legs[i];
        assert(reversible(sheet.legs@[i as int].rim_in.axis));
        let member = Member::Leg { f, i };
        let marks = marks_on(log, member);
        let g_in: u32 = 2 * (base + i) as u32;
        let g_out: u32 = 2 * (base + i) as u32 + 1;
        let rim_in = CircleUse { group: g_in, ..leg.rim_in };
        let rim_out = CircleUse { group: g_out, ..leg.rim_out };
        let ghost tube = leg_face(leg, f as int, base as int, i as int, crossings@, log@);
        let ghost next = leg_faces(*sheet, f as int, base as int, crossings@, log@, i + 1);
        proof {
            lemma_marks_fit(crossings@, log@, member);
            lemma_tube_inner_len(rim_out, crossings@, marks@, marks@.len() as int);
            lemma_leg_faces_prefix(
                *sheet,
                f as int,
                base as int,
                crossings@,
                log@,
                i + 1,
                n as int,
            );
            lemma_place(whole, done, all, next);
            assert(next[so_far.len() as int] == tube);
            lemma_room_for_next(
                before,
                assembler.state(brep),
                whole,
                done + so_far,
                assembler.made(),
                tube,
            );
            assembler.lemma_state_model(brep);
        }
        let ghost s1 = assembler.state(brep);
        let ghost ids1 = assembler.made();
        let face = assembler.emit_cylinder_face(
            brep,
            leg.leg.surf,
            rim_in,
            rim_out,
            crossings,
            &marks,
        );
        proof {
            assembler.lemma_state_model(brep);
            lemma_next_made(
                before,
                s1,
                assembler.state(brep),
                whole,
                done + so_far,
                ids1,
                tube,
                face,
                (2 + 4 * marks@.len()) as nat,
            );
            assert((done + so_far).push(tube) =~= done + so_far.push(tube));
        }
        let ghost mut list = so_far.push(tube);
        if i == 0 {
            let ghost cap = cap_face(leg.cap_in, rim_in);
            proof {
                assert(next[list.len() as int] == cap);
                lemma_room_for_next(
                    before,
                    assembler.state(brep),
                    whole,
                    done + list,
                    assembler.made(),
                    cap,
                );
            }
            let ghost s2 = assembler.state(brep);
            let ghost ids2 = assembler.made();
            let face = assembler.emit_disk_cap(brep, leg.cap_in, rim_in);
            proof {
                assembler.lemma_state_model(brep);
                lemma_next_made(
                    before,
                    s2,
                    assembler.state(brep),
                    whole,
                    done + list,
                    ids2,
                    cap,
                    face,
                    1,
                );
                assert((done + list).push(cap) =~= done + list.push(cap));
                list = list.push(cap);
            }
        }
        if i + 1 == n {
            let ghost cap = cap_face(leg.cap_out, rim_out);
            proof {
                assert(next[list.len() as int] == cap);
                lemma_room_for_next(
                    before,
                    assembler.state(brep),
                    whole,
                    done + list,
                    assembler.made(),
                    cap,
                );
            }
            let ghost s2 = assembler.state(brep);
            let ghost ids2 = assembler.made();
            let face = assembler.emit_disk_cap(brep, leg.cap_out, rim_out);
            proof {
                assembler.lemma_state_model(brep);
                lemma_next_made(
                    before,
                    s2,
                    assembler.state(brep),
                    whole,
                    done + list,
                    ids2,
                    cap,
                    face,
                    1,
                );
                assert((done + list).push(cap) =~= done + list.push(cap));
                list = list.push(cap);
            }
        }
        assert(list =~= next);
        i = i + 1;
    }
}

/// The faces of fewer legs come first.
proof fn lemma_leg_faces_prefix(
    sheet: FilamentSheet,
    f: int,
    base: int,
    crossings: Seq<Window>,
    log: Seq<Imprint>,
    i: int,
    k: int,
)
    requires
        0 <= i <= k,
    ensures
        ({
            let few = leg_faces(sheet, f, base, crossings, log, i);
            let many = leg_faces(sheet, f, base, crossings, log, k);
            few.len() <= many.len() && many.take(few.len() as int) == few
        }),
    decreases k - i,
{
    let few = leg_faces(sheet, f, base, crossings, log, i);
    if i < k {
        let most = leg_faces(sheet, f, base, crossings, log, k - 1);
        let many = leg_faces(sheet, f, base, crossings, log, k);
        lemma_leg_faces_prefix(sheet, f, base, crossings, log, i, k - 1);
        assert(many.take(few.len() as int) =~= most.take(few.len() as int));
    } else {
        assert(few.take(few.len() as int) =~= few);
    }
}

/// Where the first of some more faces stand.
proof fn lemma_place(
    whole: Seq<AsmFace>,
    done: Seq<AsmFace>,
    all: Seq<AsmFace>,
    next: Seq<AsmFace>,
)
    requires
        follows(whole, done, all),
        next.len() <= all.len(),
        all.take(next.len() as int) == next,
    ensures
        forall|i: int| 0 <= i < next.len() ==> whole[done.len() + i] == #[trigger] next[i],
{
    assert forall|i: int| 0 <= i < next.len() implies whole[done.len() + i] == #[trigger] next[
        i
    ] by {
        assert(all.take(next.len() as int)[i] == all[i]);
        assert(whole.subrange(done.len() as int, (done.len() + all.len()) as int)[i] == whole[done.len()
            + i]);
    }
}

/// Assemble the bends of a filament.
fn emit_elbows(
    assembler: &mut Assembler,
    brep: &mut BRep,
    sheet: &FilamentSheet,
    f: usize,
    base: usize,
    crossings: &Vec<Window>,
    log: &Vec<Imprint>,
    Ghost(before): Ghost<AsmState>,
    Ghost(whole): Ghost<Seq<AsmFace>>,
    Ghost(done): Ghost<Seq<AsmFace>>,
)
    requires
        old(brep).wf(),
        filament_fits(*sheet),
        log_fits(crossings@, log@),
        2 * (base + sheet.legs@.len()) <= u32::MAX,
        in_progress(
            before,
            old(assembler).state(old(brep)),
            whole,
            done,
            old(assembler).made(),
        ),
        follows(
            whole,
            done,
            elbow_faces(
                *sheet,
                f as int,
                base as int,
                crossings@,
                log@,
                sheet.elbows@.len() as int,
            ),
        ),
    ensures
        final(brep).wf(),
        in_progress(
            before,
            final(assembler).state(final(brep)),
            whole,
            done + elbow_faces(
                *sheet,
                f as int,
                base as int,
                crossings@,
                log@,
                sheet.elbows@.len() as int,
            ),
            final(assembler).made(),
        ),
{
    let n: usize = sheet.elbows.len();
    let ghost all = elbow_faces(*sheet, f as int, base as int, crossings@, log@, n as int);
    let mut i: usize = 0;
    assert(done + elbow_faces(*sheet, f as int, base as int, crossings@, log@, 0) =~= done);
    while i < n
        invariant
            i <= n,
            n == sheet.elbows@.len(),
            brep.wf(),
            filament_fits(*sheet),
            log_fits(crossings@, log@),
            2 * (base + sheet.legs@.len()) <= u32::MAX,
            all == elbow_faces(*sheet, f as int, base as int, crossings@, log@, n as int),
            follows(whole, done, all),
            in_progress(
                before,
                assembler.state(brep),
                whole,
                done + elbow_faces(
                    *sheet,
                    f as int,
                    base as int,
                    crossings@,
                    log@,
                    i as int,
                ),
                assembler.made(),
            ),
        decreases n - i,
    {
        let ghost so_far = elbow_faces(
            *sheet,
            f as int,
            base as int,
            crossings@,
            log@,
            i as int,
        );
        let ghost next = elbow_faces(*sheet, f as int, base as int, crossings@, log@, i + 1);
        let j: usize = i + 1;
        let from = sheet.legs[i];
        let to = sheet.legs[j];
        assert(reversible(sheet.legs@[i as int].rim_out.axis));
        assert(reversible(sheet.legs@[j as int].rim_in.axis));
        let member = Member::Elbow { f, i };
        let marks = marks_on(log, member);
        let g_out: u32 = 2 * (base + i) as u32 + 1;
        let g_in: u32 = 2 * (base + j) as u32;
        let lo = CircleUse { group: g_out, ..from.rim_out };
        let hi = CircleUse { group: g_in, ..to.rim_in };
        let ghost tube = elbow_face(
            *sheet,
            f as int,
            base as int,
            i as int,
            crossings@,
            log@,
        );
        proof {
            lemma_marks_fit(crossings@, log@, member);
            lemma_tube_inner_len(hi, crossings@, marks@, marks@.len() as int);
            lemma_elbow_faces_prefix(
                *sheet,
                f as int,
                base as int,
                crossings@,
                log@,
                i + 1,
                n as int,
            );
            lemma_place(whole, done, all, next);
            assert(next[so_far.len() as int] == tube);
            lemma_room_for_next(
                before,
                assembler.state(brep),
                whole,
                done + so_far,
                assembler.made(),
                tube,
            );
            assembler.lemma_state_model(brep);
        }
        let ghost s1 = assembler.state(brep);
        let ghost ids1 = assembler.made();
        let face = assembler.emit_torus_fillet_windows(
            brep,
            sheet.elbows[i].surf,
            lo,
            hi,
            crossings,
            &marks,
        );
        proof {
            assembler.lemma_state_model(brep);
            lemma_next_made(
                before,
                s1,
                assembler.state(brep),
                whole,
                done + so_far,
                ids1,
                tube,
                face,
                (2 + 4 * marks@.len()) as nat,
            );
            assert((done + so_far).push(tube) =~= done + next);
        }
        i = i + 1;
    }
}

/// The faces of fewer bends come first.
proof fn lemma_elbow_faces_prefix(
    sheet: FilamentSheet,
    f: int,
    base: int,
    crossings: Seq<Window>,
    log: Seq<Imprint>,
    i: int,
    k: int,
)
    requires
        0 <= i <= k,
    ensures
        ({
            let few = elbow_faces(sheet, f, base, crossings, log, i);
            let many = elbow_faces(sheet, f, base, crossings, log, k);
            few.len() <= many.len() && many.take(few.len() as int) == few
        }),
    decreases k - i,
{
    let few = elbow_faces(sheet, f, base, crossings, log, i);
    if i < k {
        let most = elbow_faces(sheet, f, base, crossings, log, k - 1);
        let many = elbow_faces(sheet, f, base, crossings, log, k);
        lemma_elbow_faces_prefix(sheet, f, base, crossings, log, i, k - 1);
        assert(many.take(few.len() as int) =~= most.take(few.len() as int));
    } else {
        assert(few.take(few.len() as int) =~= few);
    }
}

/// The faces of fewer filaments come first.
proof fn lemma_scaffold_prefix(
    sheets: Seq<FilamentSheet>,
    crossings: Seq<Window>,
    log: Seq<Imprint>,
    i: int,
    k: int,
)
    requires
        0 <= i <= k,
    ensures
        ({
            let few = scaffold_faces(sheets, crossings, log, i);
            let many = scaffold_faces(sheets, crossings, log, k);
            few.len() <= many.len() && many.take(few.len() as int) == few
        }),
    decreases k - i,
{
    let few = scaffold_faces(sheets, crossings, log, i);
    if i < k {
        let most = scaffold_faces(sheets, crossings, log, k - 1);
        let many = scaffold_faces(sheets, crossings, log, k);
        lemma_scaffold_prefix(sheets, crossings, log, i, k - 1);
        assert(many.take(few.len() as int) =~= most.take(few.len() as int));
    } else {
        assert(few.take(few.len() as int) =~= few);
    }
}

proof fn lemma_leg_base(sheets: Seq<FilamentSheet>, i: int, k: int)
    requires
        0 <= i <= k,
    ensures
        0 <= leg_base(sheets, i) <= leg_base(sheets, k),
    decreases k,
{
    if i < k {
        lemma_leg_base(sheets, i, k - 1);
    } else if i > 0 {
        lemma_leg_base(sheets, i - 1, i - 1);
    }
}

/// Parts of a beginning stand behind each other.
proof fn lemma_parts_follow(
    whole: Seq<AsmFace>,
    done: Seq<AsmFace>,
    one: Seq<AsmFace>,
    two: Seq<AsmFace>,
)
    requires
        (done + one + two).len() <= whole.len(),
        whole.take((done + one + two).len() as int) == done + one + two,
    ensures
        follows(whole, done, one),
        follows(whole, done + one, two),
{
    let next = done + one + two;
    let n = done.len() as int;
    let m = (done + one).len() as int;
    assert forall|i: int| 0 <= i < one.len() implies whole[n + i] == one[i] by {
        assert(whole.take(next.len() as int)[n + i] == whole[n + i]);
    }
    assert forall|i: int| 0 <= i < two.len() implies whole[m + i] == two[i] by {
        assert(whole.take(next.len() as int)[m + i] == whole[m + i]);
    }
    assert(whole.subrange(n, (done.len() + one.len()) as int) =~= one);
    assert(whole.subrange(m, ((done + one).len() + two.len()) as int) =~= two);
}

/// Whether every filament has what its faces need.
pub open spec fn filaments_fit(sheets: Seq<FilamentSheet>) -> bool {
    forall|f: int| 0 <= f < sheets.len() ==> filament_fits(#[trigger] sheets[f])
}

/// The state of an assembly that has made nothing yet.
pub open spec fn fresh(model: Model) -> AsmState {
    AsmState { model, verts: Map::empty(), edges: Map::empty(), circles: Map::empty() }
}

/// Assemble the faces of a scaffold.
pub fn emit_scaffold(brep: &mut BRep, sheets: &Vec<FilamentSheet>, imprints: &Imprints) -> (faces:
    Vec<FaceId>)
    requires
        old(brep).wf(),
        filaments_fit(sheets@),
        log_fits(imprints.crossings@, imprints.log@),
        2 * leg_base(sheets@, sheets@.len() as int) <= u32::MAX,
        room_for_faces(
            old(brep)@,
            scaffold_faces(
                sheets@,
                imprints.crossings@,
                imprints.log@,
                sheets@.len() as int,
            ),
        ),
    ensures
        final(brep).wf(),
        exists|t: AsmState| #[trigger]
            faces_made(
                fresh(old(brep)@),
                t,
                scaffold_faces(
                    sheets@,
                    imprints.crossings@,
                    imprints.log@,
                    sheets@.len() as int,
                ),
                faces@,
            ) && t.model == final(brep)@,
        final(brep)@.shells == old(brep)@.shells,
        final(brep)@.solids == old(brep)@.solids,
{
    let crossings = &imprints.crossings;
    let log = &imprints.log;
    let n: usize = sheets.len();
    let ghost model = brep@;
    let ghost whole = scaffold_faces(sheets@, crossings@, log@, n as int);
    let mut assembler = Assembler::new();
    let ghost before = assembler.state(brep);
    let mut f: usize = 0;
    let mut base: usize = 0;
    proof {
        assert(whole.take(0) =~= scaffold_faces(sheets@, crossings@, log@, 0));
        assembler.lemma_state_model(brep);
        assert(before == fresh(model));
    }
    while f < n
        invariant
            f <= n,
            n == sheets@.len(),
            brep.wf(),
            filaments_fit(sheets@),
            log_fits(crossings@, log@),
            2 * leg_base(sheets@, n as int) <= u32::MAX,
            base == leg_base(sheets@, f as int),
            whole == scaffold_faces(sheets@, crossings@, log@, n as int),
            in_progress(
                before,
                assembler.state(brep),
                whole,
                scaffold_faces(sheets@, crossings@, log@, f as int),
                assembler.made(),
            ),
        decreases n - f,
    {
        let ghost so_far = scaffold_faces(sheets@, crossings@, log@, f as int);
        let sheet = &sheets[f];
        let ghost legs = leg_faces(
            *sheet,
            f as int,
            base as int,
            crossings@,
            log@,
            sheet.legs@.len() as int,
        );
        let ghost elbows = elbow_faces(
            *sheet,
            f as int,
            base as int,
            crossings@,
            log@,
            sheet.elbows@.len() as int,
        );
        let ghost next = scaffold_faces(sheets@, crossings@, log@, f + 1);
        proof {
            assert(filament_fits(sheets@[f as int]));
            lemma_leg_base(sheets@, f + 1, n as int);
            lemma_scaffold_prefix(sheets@, crossings@, log@, f + 1, n as int);
            assert(next == so_far + legs + elbows);
            lemma_parts_follow(whole, so_far, legs, elbows);
        }
        emit_legs(
            &mut assembler,
            brep,
            sheet,
            f,
            base,
            crossings,
            log,
            Ghost(before),
            Ghost(whole),
            Ghost(so_far),
        );
        emit_elbows(
            &mut assembler,
            brep,
            sheet,
            f,
            base,
            crossings,
            log,
            Ghost(before),
            Ghost(whole),
            Ghost(so_far + legs),
        );
        base = base + sheet.legs.len();
        f = f + 1;
    }
    let ghost done = assembler.state(brep);
    let made = assembler.faces();
    let mut faces: Vec<FaceId> = Vec::new();
    let mut i: usize = 0;
    while i < made.len()
        invariant
            i <= made@.len(),
            faces@ == made@.take(i as int),
        decreases made@.len() - i,
    {
        faces.push(made[i]);
        assert(faces@ =~= made@.take(i + 1));
        i = i + 1;
    }
    proof {
        assert(faces@ =~= made@);
        assembler.lemma_state_model(brep);
        assert(faces_made(fresh(model), done, whole, faces@));
        lemma_faces_keep_solids(fresh(model), done, whole, faces@);
    }
    faces
}

/// Assembling faces leaves shells and solids alone.
proof fn lemma_faces_keep_solids(
    s: AsmState,
    t: AsmState,
    faces: Seq<AsmFace>,
    ids: Seq<FaceId>,
)
    requires
        faces_made(s, t, faces, ids),
    ensures
        t.model.shells == s.model.shells,
        t.model.solids == s.model.solids,
    decreases faces.len(),
{
    if faces.len() > 0 {
        let face = faces.last();
        let m = choose|m: AsmState|
            faces_made(s, m, faces.drop_last(), ids.drop_last()) && #[trigger] face_made(
                m,
                t,
                face.geom,
                FaceNormal::Same,
                face.extent,
                face.outer,
                face.inner,
                ids.last(),
            );
        lemma_faces_keep_solids(s, m, faces.drop_last(), ids.drop_last());
        crate::assembly_laws::lemma_face_keeps_solids(
            m,
            t,
            face.geom,
            FaceNormal::Same,
            face.extent,
            face.outer,
            face.inner,
            ids.last(),
        );
    }
}

/// Whether the window of every crossing can be cut.
pub open spec fn crossings_fit(all: Seq<Crossing>) -> bool {
    forall|i: int| 0 <= i < all.len() ==> window_fits((#[trigger] all[i]).window)
}

/// Whether windows are those that were accepted, in order.
pub open spec fn windows_of(
    crossings: Seq<Window>,
    all: Seq<Crossing>,
    state: ImprintState,
) -> bool {
    &&& crossings.len() == state.origins.len()
    &&& forall|k: int|
        0 <= k < crossings.len() ==> window_of(
            #[trigger] crossings[k],
            all[state.origins[k] as int],
            k,
        )
}

/// A scaffold was fused: its crossings were decided, its faces assembled, and
/// one shell and one solid made of them.
pub open spec fn scaffold_fused(
    before: Model,
    after: Model,
    sheets: Seq<FilamentSheet>,
    all: Seq<Crossing>,
    near: Seq<Vec<Nearness>>,
    strict: bool,
    shell: ShellId,
) -> bool {
    let state = imprints(all, near, strict, all.len() as int);
    exists|crossings: Seq<Window>, t: AsmState, faces: Seq<FaceId>, solid: SolidId|
        windows_of(crossings, all, state) && #[trigger] faces_made(
            fresh(before),
            t,
            scaffold_faces(sheets, crossings, state.log, sheets.len() as int),
            faces,
        ) && #[trigger] assembled(t.model, after, faces, Some("scaffold"@), shell, solid)
}

proof fn lemma_log_fits(
    all: Seq<Crossing>,
    near: Seq<Vec<Nearness>>,
    strict: bool,
    n: int,
    crossings: Seq<Window>,
)
    requires
        0 <= n <= all.len(),
        all.len() <= u32::MAX,
        crossings_fit(all),
        windows_of(crossings, all, imprints(all, near, strict, n)),
    ensures
        log_fits(crossings, imprints(all, near, strict, n).log),
{
    let state = imprints(all, near, strict, n);
    assert forall|i: int| 0 <= i < state.log.len() implies (#[trigger] state.log[i]).mark.crossing
        < crossings.len() && window_fits(crossings[state.log[i].mark.crossing as int]) by {
        let id = i / 2;
        law_windows_are_cut_twice(all, near, strict, n, id);
        assert(state.log[i].mark.crossing == id);
        assert(window_of(crossings[id], all[state.origins[id] as int], id));
        assert(window_fits(all[state.origins[id] as int].window));
    }
}

/// Fuse filaments that cross into one shell.
fn fuse_scaffold_impl(
    brep: &mut BRep,
    sheets: &Vec<FilamentSheet>,
    all: Vec<Crossing>,
    near: &Vec<Vec<Nearness>>,
    strict: bool,
) -> (shell: ShellId)
    requires
        old(brep).wf(),
        filaments_fit(sheets@),
        crossings_fit(all@),
        square(near@, all@.len() as int),
        all@.len() <= u32::MAX,
        2 * leg_base(sheets@, sheets@.len() as int) <= u32::MAX,
        has_room(old(brep)@, sheets@, all@, near@, strict),
        old(brep)@.shells.dom().len() < SLOT_LIMIT,
        old(brep)@.solids.dom().len() < SLOT_LIMIT,
    ensures
        final(brep).wf(),
        scaffold_fused(
            old(brep)@,
            final(brep)@,
            sheets@,
            all@,
            near@,
            strict,
            shell,
        ),
{
    let ghost given = all@;
    let ghost before = brep@;
    let imprints_made = imprint_crossings(all, near, strict);
    let ghost state = imprints(given, near@, strict, given.len() as int);
    proof {
        assert(windows_of(imprints_made.crossings@, given, state));
        lemma_log_fits(given, near@, strict, given.len() as int, imprints_made.crossings@);
        let n = sheets@.len() as int;
        lemma_scaffolds_alike(sheets@, imprints_made.crossings@, seq![], state.log, n);
        lemma_same_needs(
            scaffold_faces(sheets@, imprints_made.crossings@, state.log, n),
            scaffold_faces(sheets@, seq![], state.log, n),
        );
    }
    let faces = emit_scaffold(brep, sheets, &imprints_made);
    let ghost listed = faces@;
    let ghost t = choose|t: AsmState| #[trigger]
        faces_made(
            fresh(before),
            t,
            scaffold_faces(
                sheets@,
                imprints_made.crossings@,
                imprints_made.log@,
                sheets@.len() as int,
            ),
            listed,
        ) && t.model == brep@;
    let (shell, solid) = assemble_solid(brep, faces, Some("scaffold".to_owned()));
    proof {
        assert(assembled(t.model, brep@, listed, Some("scaffold"@), shell, solid));
    }
    shell
}

/// Whether a model has room for a scaffold. What its faces need does not depend
/// on what its windows look like.
pub open spec fn has_room(
    model: Model,
    sheets: Seq<FilamentSheet>,
    all: Seq<Crossing>,
    near: Seq<Vec<Nearness>>,
    strict: bool,
) -> bool {
    let state = imprints(all, near, strict, all.len() as int);
    room_for_faces(model, scaffold_faces(sheets, seq![], state.log, sheets.len() as int))
}

/// Faces that need the same.
spec fn same_needs(a: Seq<AsmFace>, b: Seq<AsmFace>) -> bool {
    a.len() == b.len() && forall|i: int|
        0 <= i < a.len() ==> (#[trigger] a[i]).inner.len() == (#[trigger] b[i]).inner.len()
}

proof fn lemma_same_needs(a: Seq<AsmFace>, b: Seq<AsmFace>)
    requires
        same_needs(a, b),
    ensures
        uses_needed(a) == uses_needed(b),
        loops_needed(a) == loops_needed(b),
    decreases a.len(),
{
    if a.len() > 0 {
        assert(a[a.len() - 1].inner.len() == b[b.len() - 1].inner.len());
        assert forall|i: int| 0 <= i < a.len() - 1 implies (#[trigger] a.drop_last()[i]).inner.len()
            == (#[trigger] b.drop_last()[i]).inner.len() by {
            assert(a[i].inner.len() == b[i].inner.len());
        }
        lemma_same_needs(a.drop_last(), b.drop_last());
    }
}

proof fn lemma_tubes_alike(far: CircleUse, a: Seq<Window>, b: Seq<Window>, marks: Seq<Mark>)
    ensures
        tube_inner(far, a, marks).len() == tube_inner(far, b, marks).len(),
{
    lemma_tube_inner_len(far, a, marks, marks.len() as int);
    lemma_tube_inner_len(far, b, marks, marks.len() as int);
}

proof fn lemma_legs_alike(
    sheet: FilamentSheet,
    f: int,
    base: int,
    a: Seq<Window>,
    b: Seq<Window>,
    log: Seq<Imprint>,
    k: int,
)
    ensures
        same_needs(leg_faces(sheet, f, base, a, log, k), leg_faces(sheet, f, base, b, log, k)),
    decreases k,
{
    if k > 0 {
        let i = k - 1;
        lemma_legs_alike(sheet, f, base, a, b, log, i);
        lemma_tubes_alike(
            grouped(sheet.legs@[i].rim_out, group_out(base, i)),
            a,
            b,
            marks_of(log, Member::Leg { f: f as usize, i: i as usize }),
        );
    }
}

proof fn lemma_elbows_alike(
    sheet: FilamentSheet,
    f: int,
    base: int,
    a: Seq<Window>,
    b: Seq<Window>,
    log: Seq<Imprint>,
    k: int,
)
    ensures
        same_needs(
            elbow_faces(sheet, f, base, a, log, k),
            elbow_faces(sheet, f, base, b, log, k),
        ),
    decreases k,
{
    if k > 0 {
        let i = k - 1;
        lemma_elbows_alike(sheet, f, base, a, b, log, i);
        lemma_tubes_alike(
            grouped(sheet.legs@[i + 1].rim_in, group_in(base, i + 1)),
            a,
            b,
            marks_of(log, Member::Elbow { f: f as usize, i: i as usize }),
        );
    }
}

proof fn lemma_scaffolds_alike(
    sheets: Seq<FilamentSheet>,
    a: Seq<Window>,
    b: Seq<Window>,
    log: Seq<Imprint>,
    k: int,
)
    ensures
        same_needs(scaffold_faces(sheets, a, log, k), scaffold_faces(sheets, b, log, k)),
    decreases k,
{
    if k > 0 {
        let f = k - 1;
        let base = leg_base(sheets, f);
        let sheet = sheets[f];
        lemma_scaffolds_alike(sheets, a, b, log, f);
        lemma_legs_alike(sheet, f, base, a, b, log, sheet.legs@.len() as int);
        lemma_elbows_alike(sheet, f, base, a, b, log, sheet.elbows@.len() as int);
    }
}

/// Fuse filaments that cross into one shell, with every crossing that has
/// points enough.
pub fn fuse_scaffold(
    brep: &mut BRep,
    filaments: &Vec<FilamentSheet>,
    crossings: Vec<Crossing>,
    near: &Vec<Vec<Nearness>>,
) -> (shell: ShellId)
    requires
        old(brep).wf(),
        filaments_fit(filaments@),
        crossings_fit(crossings@),
        square(near@, crossings@.len() as int),
        crossings@.len() <= u32::MAX,
        2 * leg_base(filaments@, filaments@.len() as int) <= u32::MAX,
        has_room(old(brep)@, filaments@, crossings@, near@, false),
        old(brep)@.shells.dom().len() < SLOT_LIMIT,
        old(brep)@.solids.dom().len() < SLOT_LIMIT,
    ensures
        final(brep).wf(),
        scaffold_fused(
            old(brep)@,
            final(brep)@,
            filaments@,
            crossings@,
            near@,
            false,
            shell,
        ),
{
    fuse_scaffold_impl(brep, filaments, crossings, near, false)
}

/// Fuse filaments that cross into one shell, without the crossings that come
/// too near to the end of a leg or to another window.
pub fn fuse_scaffold_rimsafe(
    brep: &mut BRep,
    filaments: &Vec<FilamentSheet>,
    crossings: Vec<Crossing>,
    near: &Vec<Vec<Nearness>>,
) -> (shell: ShellId)
    requires
        old(brep).wf(),
        filaments_fit(filaments@),
        crossings_fit(crossings@),
        square(near@, crossings@.len() as int),
        crossings@.len() <= u32::MAX,
        2 * leg_base(filaments@, filaments@.len() as int) <= u32::MAX,
        has_room(old(brep)@, filaments@, crossings@, near@, true),
        old(brep)@.shells.dom().len() < SLOT_LIMIT,
        old(brep)@.solids.dom().len() < SLOT_LIMIT,
    ensures
        final(brep).wf(),
        scaffold_fused(
            old(brep)@,
            final(brep)@,
            filaments@,
            crossings@,
            near@,
            true,
            shell,
        ),
{
    fuse_scaffold_impl(brep, filaments, crossings, near, true)
}

} // verus!
