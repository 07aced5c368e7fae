//! Where the surfaces of two faces meet.
//!
//! An intersection curve is clipped to the region that both faces cover, so
//! that the same curve can be handed to both of them and become one edge.
//! Points, distances and traced loops are measured elsewhere; which of them
//! count, where a loop is broken up and which pieces remain is settled here.

use vstd::prelude::*;

use crate::boundary::{count_up, pick_points};
use crate::entities::FaceGeom;
use crate::geometry::Point3;

verus! {

/// 1e-9.
pub const SPAN_GAP: u64 = 0x3E11_2E0B_E826_D695;

/// -1e-9.
pub const NEG_SPAN_GAP: u64 = 0xBE11_2E0B_E826_D695;

/// 1 + 1e-9.
pub const PAST_ONE: u64 = 0x3FF0_0000_0044_B830;

/// 1e-12.
pub const DET_LIMIT: u64 = 0x3D71_9799_812D_EA11;

/// 1e-6.
pub const DRIFT_FLOOR: u64 = 0x3EB0_C6F7_A0B5_ED8D;

/// 1 - 1e-7.
pub const PARALLEL: u64 = 0x3FEF_FFFF_CA50_1ACB;

/// A full turn less 1e-9.
pub const FULL_TURN: u64 = 0x4019_21FB_5432_FF0C;

/// One intersection curve. A closed one repeats no point but runs back to its
/// first.
#[derive(Clone, Debug)]
pub struct SsiCurve {
    /// The points from start to end.
    pub points: Vec<Point3>,
    /// Whether the curve is a loop.
    pub closed: bool,
}

/// What a curve is.
#[verifier::ext_equal]
pub struct CurveView {
    pub points: Seq<Point3>,
    pub closed: bool,
}

impl SsiCurve {
    /// What the curve is.
    pub open spec fn view(&self) -> CurveView {
        CurveView { points: self.points@, closed: self.closed }
    }
}

/// What each of several curves is.
pub open spec fn curve_views(curves: Seq<SsiCurve>) -> Seq<CurveView> {
    Seq::new(curves.len(), |i: int| curves[i]@)
}

/// A curve added at the end.
pub proof fn lemma_curves_push(curves: Seq<SsiCurve>, curve: SsiCurve)
    ensures
        curve_views(curves.push(curve)) == curve_views(curves).push(curve@),
{
    assert(curve_views(curves.push(curve)) =~= curve_views(curves).push(curve@));
}

/// Which pairs of surfaces are intersected.
#[derive(Clone, Copy, Debug, PartialEq, Eq, Structural)]
pub struct SsiOptions {
    /// Whether planes are intersected with tori.
    pub plane_torus: bool,
}

impl SsiOptions {
    /// Every pair.
    pub fn all() -> (opts: SsiOptions)
        ensures
            opts.plane_torus,
    {
        SsiOptions { plane_torus: true }
    }
}

impl Default for SsiOptions {
    /// Every pair but plane and torus.
    fn default() -> (opts: SsiOptions)
        ensures
            !opts.plane_torus,
    {
        SsiOptions { plane_torus: false }
    }
}

/// How a pair of faces is intersected.
#[derive(Clone, Copy, Debug, PartialEq, Eq, Structural)]
pub enum SurfacePair {
    /// Two planes.
    Planes,
    /// A plane, and a cylinder.
    PlaneCylinder,
    /// A cylinder, and a plane.
    CylinderPlane,
    /// Two cylinders.
    Cylinders,
    /// A torus and a cylinder.
    TorusCylinder,
    /// A cylinder and a torus.
    CylinderTorus,
    /// Two tori.
    Tori,
    /// A plane and a torus.
    PlaneTorus,
    /// A torus and a plane.
    TorusPlane,
    /// The pair is passed over.
    Passed,
}

/// How two surfaces are intersected.
pub open spec fn surface_pair(a: FaceGeom, b: FaceGeom, opts: SsiOptions) -> SurfacePair {
    match (a, b) {
        (FaceGeom::Plane(_), FaceGeom::Plane(_)) => SurfacePair::Planes,
        (FaceGeom::Plane(_), FaceGeom::Cylinder(_)) => SurfacePair::PlaneCylinder,
        (FaceGeom::Cylinder(_), FaceGeom::Plane(_)) => SurfacePair::CylinderPlane,
        (FaceGeom::Cylinder(_), FaceGeom::Cylinder(_)) => SurfacePair::Cylinders,
        (FaceGeom::Torus(_), FaceGeom::Cylinder(_)) => SurfacePair::TorusCylinder,
        (FaceGeom::Cylinder(_), FaceGeom::Torus(_)) => SurfacePair::CylinderTorus,
        (FaceGeom::Torus(_), FaceGeom::Torus(_)) => SurfacePair::Tori,
        (FaceGeom::Plane(_), FaceGeom::Torus(_)) => if opts.plane_torus {
            SurfacePair::PlaneTorus
        } else {
            SurfacePair::Passed
        },
        (FaceGeom::Torus(_), FaceGeom::Plane(_)) => if opts.plane_torus {
            SurfacePair::TorusPlane
        } else {
            SurfacePair::Passed
        },
        _ => SurfacePair::Passed,
    }
}

/// How two surfaces are intersected.
pub fn pair_surfaces(a: &FaceGeom, b: &FaceGeom, opts: SsiOptions) -> (p: SurfacePair)
    ensures
        p == surface_pair(*a, *b, opts),
{
    match (a, b) {
        (FaceGeom::Plane(_), FaceGeom::Plane(_)) => SurfacePair::Planes,
        (FaceGeom::Plane(_), FaceGeom::Cylinder(_)) => SurfacePair::PlaneCylinder,
        (FaceGeom::Cylinder(_), FaceGeom::Plane(_)) => SurfacePair::CylinderPlane,
        (FaceGeom::Cylinder(_), FaceGeom::Cylinder(_)) => SurfacePair::Cylinders,
        (FaceGeom::Torus(_), FaceGeom::Cylinder(_)) => SurfacePair::TorusCylinder,
        (FaceGeom::Cylinder(_), FaceGeom::Torus(_)) => SurfacePair::CylinderTorus,
        (FaceGeom::Torus(_), FaceGeom::Torus(_)) => SurfacePair::Tori,
        (FaceGeom::Plane(_), FaceGeom::Torus(_)) => if opts.plane_torus {
            SurfacePair::PlaneTorus
        } else {
            SurfacePair::Passed
        },
        (FaceGeom::Torus(_), FaceGeom::Plane(_)) => if opts.plane_torus {
            SurfacePair::TorusPlane
        } else {
            SurfacePair::Passed
        },
        _ => SurfacePair::Passed,
    }
}

// ── Clipping a loop ─────────────────────────────────────────────────────────

/// The place `k` steps after `start` on a ring of `n`.
pub open spec fn turned(n: int, start: int, k: int) -> int {
    if k < n - start {
        start + k
    } else {
        start + k - n
    }
}

/// Whether a loop comes in at sample `i`: it is inside, the one before is not.
pub open spec fn comes_in(inside: Seq<bool>, i: int) -> bool {
    inside[i] && !inside[if i == 0 {
        inside.len() - 1
    } else {
        i - 1
    }]
}

/// The first sample from `i` on at which a loop comes in; the length if none.
pub open spec fn first_entry(inside: Seq<bool>, i: int) -> int
    decreases inside.len() - i,
{
    if i >= inside.len() {
        inside.len() as int
    } else if comes_in(inside, i) {
        i
    } else {
        first_entry(inside, i + 1)
    }
}

/// The first step from `k` on that is outside, counted from `start`; the length
/// if none.
pub open spec fn run_end(inside: Seq<bool>, start: int, k: int) -> int
    decreases inside.len() - k,
{
    if k >= inside.len() {
        inside.len() as int
    } else if inside[turned(inside.len() as int, start, k)] {
        run_end(inside, start, k + 1)
    } else {
        k
    }
}

/// One point, or none.
pub open spec fn optional(point: Option<Point3>) -> Seq<Point3> {
    match point {
        Some(p) => seq![p],
        None => Seq::empty(),
    }
}

/// The samples of steps `k` up to `e`, counted from `start`.
pub open spec fn stretch(points: Seq<Point3>, start: int, k: int, e: int) -> Seq<Point3> {
    Seq::new((e - k) as nat, |i: int| points[turned(points.len() as int, start, k + i)])
}

/// A run of inside samples, from where the loop comes in to where it leaves.
pub open spec fn arc(
    points: Seq<Point3>,
    ends: Seq<Option<Point3>>,
    start: int,
    k: int,
    e: int,
) -> CurveView {
    let n = points.len() as int;
    CurveView {
        points: optional(ends[turned(n, start, k)]) + stretch(points, start, k, e) + optional(
            ends[turned(n, start, e)],
        ),
        closed: false,
    }
}

/// The runs from step `k` on, in order; a run of a single point is no curve.
pub open spec fn arcs_from(
    points: Seq<Point3>,
    inside: Seq<bool>,
    ends: Seq<Option<Point3>>,
    start: int,
    k: int,
) -> Seq<CurveView>
    decreases inside.len() - k,
{
    let n = inside.len() as int;
    if k >= n {
        Seq::empty()
    } else if !inside[turned(n, start, k)] {
        arcs_from(points, inside, ends, start, k + 1)
    } else {
        let e = run_end(inside, start, k);
        if e <= k || e > n {
            Seq::empty()
        } else {
            let one = arc(points, ends, start, k, e);
            let rest = arcs_from(points, inside, ends, start, e);
            if one.points.len() >= 2 {
                seq![one] + rest
            } else {
                rest
            }
        }
    }
}

/// Whether every sample is inside.
pub open spec fn wholly_inside(inside: Seq<bool>) -> bool {
    forall|i: int| 0 <= i < inside.len() ==> #[trigger] inside[i]
}

/// The part of a loop that is inside: the loop, or its runs of inside samples,
/// starting with the first that the loop comes into.  `ends[i]` is the point
/// between sample `i` and the one before at which the loop crosses over.
pub open spec fn clipped(
    points: Seq<Point3>,
    inside: Seq<bool>,
    ends: Seq<Option<Point3>>,
) -> Seq<CurveView> {
    if wholly_inside(inside) {
        seq![CurveView { points, closed: true }]
    } else {
        let start = first_entry(inside, 0);
        if start >= inside.len() {
            Seq::empty()
        } else {
            arcs_from(points, inside, ends, start, 0)
        }
    }
}

/// What `first_entry` finds.
proof fn lemma_first_entry(inside: Seq<bool>, i: int)
    requires
        0 <= i <= inside.len(),
    ensures
        i <= first_entry(inside, i) <= inside.len(),
        first_entry(inside, i) < inside.len() ==> comes_in(inside, first_entry(inside, i)),
        forall|j: int| i <= j < first_entry(inside, i) ==> !#[trigger] comes_in(inside, j),
    decreases inside.len() - i,
{
    if i < inside.len() && !comes_in(inside, i) {
        lemma_first_entry(inside, i + 1);
    }
}

/// What `run_end` finds.
proof fn lemma_run_end(inside: Seq<bool>, start: int, k: int)
    requires
        0 <= k <= inside.len(),
        0 <= start < inside.len(),
    ensures
        k <= run_end(inside, start, k) <= inside.len(),
        run_end(inside, start, k) < inside.len() ==> !inside[turned(
            inside.len() as int,
            start,
            run_end(inside, start, k),
        )],
        forall|j: int|
            k <= j < run_end(inside, start, k) ==> inside[#[trigger] turned(
                inside.len() as int,
                start,
                j,
            )],
    decreases inside.len() - k,
{
    if k < inside.len() && inside[turned(inside.len() as int, start, k)] {
        lemma_run_end(inside, start, k + 1);
    }
}

/// Every point of a run is an inside sample or the point where the loop
/// crosses over.
pub proof fn law_arcs_stay_inside(
    points: Seq<Point3>,
    inside: Seq<bool>,
    ends: Seq<Option<Point3>>,
    start: int,
    k: int,
    a: int,
    j: int,
)
    requires
        inside.len() == points.len(),
        ends.len() == points.len(),
        0 <= start < inside.len(),
        comes_in(inside, start),
        0 <= k <= inside.len(),
        0 <= a < arcs_from(points, inside, ends, start, k).len(),
        0 <= j < arcs_from(points, inside, ends, start, k)[a].points.len(),
    ensures
        !arcs_from(points, inside, ends, start, k)[a].closed,
        arcs_from(points, inside, ends, start, k)[a].points.len() >= 2,
        (exists|s: int|
            0 <= s < points.len() && inside[s] && #[trigger] points[s] == arcs_from(
                points,
                inside,
                ends,
                start,
                k,
            )[a].points[j]) || (exists|s: int|
            0 <= s < points.len() && #[trigger] ends[s] == Some(
                arcs_from(points, inside, ends, start, k)[a].points[j],
            )),
    decreases inside.len() - k,
{
    let n = inside.len() as int;
    if k < n {
        if !inside[turned(n, start, k)] {
            law_arcs_stay_inside(points, inside, ends, start, k + 1, a, j);
        } else {
            let e = run_end(inside, start, k);
            lemma_run_end(inside, start, k);
            assert(turned(n, start, n - 1) == if start == 0 {
                n - 1
            } else {
                start - 1
            });
            if e <= k {
                assert(!inside[turned(n, start, k)]);
            }
            if e == n {
                assert(inside[turned(n, start, n - 1)]);
            }
            let one = arc(points, ends, start, k, e);
            let rest = arcs_from(points, inside, ends, start, e);
            if one.points.len() < 2 {
                law_arcs_stay_inside(points, inside, ends, start, e, a, j);
            } else if a > 0 {
                assert(arcs_from(points, inside, ends, start, k)[a] == rest[a - 1]);
                law_arcs_stay_inside(points, inside, ends, start, e, a - 1, j);
            } else {
                let head = optional(ends[turned(n, start, k)]);
                let body = stretch(points, start, k, e);
                if j < head.len() {
                    assert(ends[turned(n, start, k)] == Some(one.points[j]));
                } else if j < head.len() + body.len() {
                    let s = turned(n, start, k + (j - head.len()));
                    assert(inside[turned(n, start, k + (j - head.len()))]);
                    assert(points[s] == one.points[j]);
                } else {
                    assert(ends[turned(n, start, e)] == Some(one.points[j]));
                }
            }
        }
    }
}

/// An inside sample with an inside sample beside it is on some run.
pub proof fn law_runs_are_kept(
    points: Seq<Point3>,
    inside: Seq<bool>,
    ends: Seq<Option<Point3>>,
    start: int,
    k: int,
    p: int,
)
    requires
        inside.len() == points.len(),
        ends.len() == points.len(),
        0 <= start < inside.len(),
        comes_in(inside, start),
        0 <= k <= p,
        p + 1 < inside.len(),
        inside[turned(inside.len() as int, start, p)],
        inside[turned(inside.len() as int, start, p + 1)],
    ensures
        exists|a: int|
            0 <= a < arcs_from(points, inside, ends, start, k).len() && {
                let on = (#[trigger] arcs_from(points, inside, ends, start, k)[a]).points;
                on.contains(points[turned(inside.len() as int, start, p)]) && on.contains(
                    points[turned(inside.len() as int, start, p + 1)],
                )
            },
    decreases inside.len() - k,
{
    let n = inside.len() as int;
    let here = points[turned(n, start, p)];
    let there = points[turned(n, start, p + 1)];
    let all = arcs_from(points, inside, ends, start, k);
    if !inside[turned(n, start, k)] {
        law_runs_are_kept(points, inside, ends, start, k + 1, p);
    } else {
        let e = run_end(inside, start, k);
        lemma_run_end(inside, start, k);
        if e <= k {
            assert(!inside[turned(n, start, k)]);
        }
        let one = arc(points, ends, start, k, e);
        let rest = arcs_from(points, inside, ends, start, e);
        if p < e {
            if p + 1 == e {
                assert(false);
            }
            let head = optional(ends[turned(n, start, k)]);
            assert(stretch(points, start, k, e)[p - k] == here);
            assert(stretch(points, start, k, e)[p + 1 - k] == there);
            assert(one.points[head.len() + (p - k)] == here);
            assert(one.points[head.len() + (p + 1 - k)] == there);
            assert(all[0] == one);
        } else {
            law_runs_are_kept(points, inside, ends, start, e, p);
            let a = choose|a: int|
                0 <= a < rest.len() && {
                    let on = (#[trigger] rest[a]).points;
                    on.contains(here) && on.contains(there)
                };
            if one.points.len() >= 2 {
                assert(all[a + 1] == rest[a]);
            } else {
                assert(all[a] == rest[a]);
            }
        }
    }
}

/// The place `k` steps after `start` on a ring of `n`.
fn turn(n: usize, start: usize, k: usize) -> (i: usize)
    requires
        start < n,
        k < n,
    ensures
        i == turned(n as int, start as int, k as int),
        i < n,
{
    if k < n - start {
        start + k
    } else {
        k - (n - start)
    }
}

/// Whether a loop comes in at sample `i`.
fn enters(inside: &[bool], i: usize) -> (r: bool)
    requires
        i < inside@.len(),
    ensures
        r == comes_in(inside@, i as int),
{
    let before: usize = if i == 0 {
        inside.len() - 1
    } else {
        i - 1
    };
    inside[i] && !inside[before]
}

/// Clip a loop to its inside samples.
pub fn clip_loop(points: &[Point3], inside: &[bool], ends: &[Option<Point3>]) -> (curves: Vec<
    SsiCurve,
>)
    requires
        inside@.len() == points@.len(),
        ends@.len() == points@.len(),
    ensures
        curve_views(curves@) == clipped(points@, inside@, ends@),
{
    let n: usize = points.len();
    let mut curves: Vec<SsiCurve> = Vec::new();
    let mut all = true;
    let mut i: usize = 0;
    while i < n
        invariant
            n == inside@.len(),
            i <= n,
            all == (forall|j: int| 0 <= j < i ==> #[trigger] inside@[j]),
        decreases n - i,
    {
        if !inside[i] {
            all = false;
        }
        i += 1;
    }
    if all {
        let every = count_up(n);
        let whole = pick_points(points, &every);
        assert(whole@ =~= points@);
        curves.push(SsiCurve { points: whole, closed: true });
        assert(curve_views(curves@) =~= seq![CurveView { points: points@, closed: true }]);
        return curves;
    }
    let mut start: usize = 0;
    while start < n && !enters(inside, start)
        invariant
            n == inside@.len(),
            start <= n,
            first_entry(inside@, 0) == first_entry(inside@, start as int),
        decreases n - start,
    {
        start += 1;
    }
    assert(curve_views(curves@) =~= Seq::empty());
    if start >= n {
        return curves;
    }
    proof {
        lemma_first_entry(inside@, start as int);
    }
    let ghost whole = arcs_from(points@, inside@, ends@, start as int, 0);
    let mut k: usize = 0;
    while k < n
        invariant
            n == points@.len(),
            n == inside@.len(),
            n == ends@.len(),
            start < n,
            comes_in(inside@, start as int),
            k <= n,
            whole == curve_views(curves@) + arcs_from(
                points@,
                inside@,
                ends@,
                start as int,
                k as int,
            ),
        decreases n - k,
    {
        let at: usize = turn(n, start, k);
        if !inside[at] {
            k += 1;
            continue;
        }
        let ghost from = k as int;
        let ghost e = run_end(inside@, start as int, from);
        proof {
            lemma_run_end(inside@, start as int, from);
            assert(turned(n as int, start as int, n - 1) == if start == 0 {
                n - 1
            } else {
                start - 1
            });
            if e == n {
                assert(inside@[turned(n as int, start as int, n - 1)]);
            }
            if e <= from {
                assert(!inside@[turned(n as int, start as int, from)]);
            }
        }
        let mut run: Vec<Point3> = Vec::new();
        match ends[at] {
            Some(p) => {
                run.push(p);
            },
            None => {},
        }
        let ghost head = optional(ends@[at as int]);
        assert(run@ =~= head);
        assert(run@ =~= head + stretch(points@, start as int, from, from));
        while k < n && inside[turn(n, start, k)]
            invariant
                n == points@.len(),
                n == inside@.len(),
                start < n,
                from <= k <= n,
                e == run_end(inside@, start as int, k as int),
                run@ == head + stretch(points@, start as int, from, k as int),
            decreases n - k,
        {
            run.push(points[turn(n, start, k)]);
            k += 1;
            assert(run@ =~= head + stretch(points@, start as int, from, k as int));
        }
        assert(k == e);
        let out: usize = turn(n, start, k);
        match ends[out] {
            Some(p) => {
                run.push(p);
            },
            None => {},
        }
        let ghost one = arc(points@, ends@, start as int, from, e);
        assert(run@ =~= one.points);
        let ghost before = curves@;
        if run.len() >= 2 {
            curves.push(SsiCurve { points: run, closed: false });
            assert(curve_views(curves@) =~= curve_views(before).push(one));
        }
        assert(whole =~= curve_views(curves@) + arcs_from(
            points@,
            inside@,
            ends@,
            start as int,
            k as int,
        ));
    }
    assert(whole =~= curve_views(curves@));
    curves
}

/// No crossing points at all.
pub open spec fn no_ends(n: int) -> Seq<Option<Point3>> {
    Seq::new(n as nat, |i: int| None)
}

/// Clip a loop to its inside samples; the runs end on samples.
pub fn clip_loop_to_arcs(points: &[Point3], inside: &[bool]) -> (curves: Vec<SsiCurve>)
    requires
        inside@.len() == points@.len(),
    ensures
        curve_views(curves@) == clipped(points@, inside@, no_ends(points@.len() as int)),
{
    let mut ends: Vec<Option<Point3>> = Vec::new();
    let mut i: usize = 0;
    while i < points.len()
        invariant
            i <= points@.len(),
            ends@ == no_ends(i as int),
        decreases points@.len() - i,
    {
        ends.push(None);
        i += 1;
        assert(ends@ =~= no_ends(i as int));
    }
    clip_loop(points, inside, &ends)
}

} // verus!
