//! The curves of each pair of surfaces.

use vstd::prelude::*;

use crate::boundary::{count_up, pick_points};
use crate::brep::BRep;
use crate::cut::{greatest, least, LARGEST, SMALLEST};
use crate::entities::{Face, FaceExtent, FaceGeom};
use crate::geometry::{CylSurf, Point3, TorusSurf};
use crate::ids::FaceId;
use crate::polyline::{
    all_below, arrange_places, ascending, covers, lemma_thinned, ordered, placed, thin, thinned,
    Apart, Place,
};
use crate::scalar::{larger, max, min, Real};
use crate::ssi::{
    clip_loop, clip_loop_to_arcs, clipped, curve_views, lemma_curves_push, no_ends, pair_surfaces,
    surface_pair, CurveView, SurfacePair, SsiCurve, SsiOptions, DET_LIMIT, DRIFT_FLOOR, FULL_TURN,
    NEG_SPAN_GAP, PARALLEL, PAST_ONE, SPAN_GAP,
};

verus! {

/// A full turn.
pub const TURN: u64 = 0x4019_21FB_5444_2D18;

// ── Points ──────────────────────────────────────────────────────────────────

/// An edge of a polygon as a test of a point sees it: the heights of its ends,
/// and how far along the point's height line the edge crosses it.
#[derive(Clone, Copy, Debug, PartialEq, Eq, Structural)]
pub struct EdgeSide {
    /// Height of the start.
    pub from: Real,
    /// Height of the end.
    pub to: Real,
    /// Where the edge crosses the point's height.
    pub meets: Real,
}

/// Whether an edge is crossed by the ray from a point.
pub open spec fn ray_crosses(edge: EdgeSide, across: Real, height: Real) -> bool {
    height.below(edge.from) != height.below(edge.to) && across.below(edge.meets)
}

/// How many of the first `k` edges are crossed by the ray from a point.
pub open spec fn ray_crossings(edges: Seq<EdgeSide>, across: Real, height: Real, k: int) -> nat
    decreases k,
{
    if k <= 0 {
        0
    } else {
        ray_crossings(edges, across, height, k - 1) + (if ray_crosses(
            edges[k - 1],
            across,
            height,
        ) {
            1nat
        } else {
            0
        })
    }
}

/// Whether a point is inside a polygon: the ray from it crosses an odd number
/// of edges.
pub fn point_in_polygon_2d(edges: &[EdgeSide], across: Real, height: Real) -> (inside: bool)
    ensures
        inside == (ray_crossings(edges@, across, height, edges@.len() as int) % 2 == 1),
{
    let mut inside = false;
    let mut k: usize = 0;
    while k < edges.len()
        invariant
            k <= edges@.len(),
            inside == (ray_crossings(edges@, across, height, k as int) % 2 == 1),
        decreases edges@.len() - k,
    {
        let e = edges[k];
        if e.from.gt(height) != e.to.gt(height) && across.lt(e.meets) {
            inside = !inside;
        }
        k += 1;
    }
    inside
}

/// A point's angle on an arc, counted from the arc's start.
#[derive(Clone, Copy, Debug, PartialEq, Eq, Structural)]
pub struct ArcMark {
    /// How far the arc sweeps, signed.
    pub sweep: Real,
    /// How far from the arc's start the point is, along the arc, within a turn.
    pub along: Real,
    /// How far the arc reaches, with its tolerance.
    pub reach: Real,
}

/// Whether a mark is on an arc, whichever way that runs.
pub open spec fn on_arc(mark: ArcMark) -> bool {
    mark.along.at_most(mark.reach)
}

/// Whether a mark is on an arc, or the arc runs all the way round.
pub open spec fn on_signed_arc(mark: ArcMark) -> bool {
    Real { bits: FULL_TURN }.at_most(mark.sweep.unsigned()) || mark.along.at_most(mark.reach)
}

/// Which samples are on both of two arcs.
pub fn inside_both_arcs(one: &[ArcMark], other: &[ArcMark]) -> (inside: Vec<bool>)
    requires
        one@.len() == other@.len(),
    ensures
        inside@ == Seq::new(one@.len(), |i: int| on_arc(one@[i]) && on_arc(other@[i])),
{
    let mut inside: Vec<bool> = Vec::new();
    let mut k: usize = 0;
    let ghost whole = Seq::new(one@.len(), |i: int| on_arc(one@[i]) && on_arc(other@[i]));
    while k < one.len()
        invariant
            one@.len() == other@.len(),
            k <= one@.len(),
            whole == Seq::new(one@.len(), |i: int| on_arc(one@[i]) && on_arc(other@[i])),
            inside@ == whole.subrange(0, k as int),
        decreases one@.len() - k,
    {
        inside.push(one[k].along.le(one[k].reach) && other[k].along.le(other[k].reach));
        k += 1;
        assert(inside@ =~= whole.subrange(0, k as int));
    }
    assert(inside@ =~= whole);
    inside
}

/// Which samples are on an arc and over a region.
pub fn inside_arc_and_region(marks: &[ArcMark], over: &[bool]) -> (inside: Vec<bool>)
    requires
        marks@.len() == over@.len(),
    ensures
        inside@ == Seq::new(marks@.len(), |i: int| on_signed_arc(marks@[i]) && over@[i]),
{
    let mut inside: Vec<bool> = Vec::new();
    let mut k: usize = 0;
    let ghost whole = Seq::new(marks@.len(), |i: int| on_signed_arc(marks@[i]) && over@[i]);
    while k < marks.len()
        invariant
            marks@.len() == over@.len(),
            k <= marks@.len(),
            whole == Seq::new(marks@.len(), |i: int| on_signed_arc(marks@[i]) && over@[i]),
            inside@ == whole.subrange(0, k as int),
        decreases marks@.len() - k,
    {
        let full = marks[k].sweep.abs().ge(Real { bits: FULL_TURN });
        inside.push((full || marks[k].along.le(marks[k].reach)) && over[k]);
        k += 1;
        assert(inside@ =~= whole.subrange(0, k as int));
    }
    assert(inside@ =~= whole);
    inside
}

/// The point where a loop crosses over, as bracketed between two samples.
#[derive(Clone, Copy, Debug, PartialEq, Eq, Structural)]
pub struct CrossOver {
    /// The middle of the last bracket.
    pub middle: Point3,
    /// The middle brought onto both surfaces, if that worked out.
    pub refined: Option<Point3>,
    /// How far the refinement moved the middle.
    pub drift: Real,
    /// How far apart the two samples are.
    pub width: Real,
}

/// The crossing point, unless the refinement ran away.
pub open spec fn crossing_point(c: CrossOver) -> Option<Point3> {
    if larger(c.width, Real { bits: DRIFT_FLOOR }).below(c.drift) {
        None
    } else {
        match c.refined {
            Some(p) => Some(p),
            None => Some(c.middle),
        }
    }
}

/// The crossing point, unless the refinement ran away from the bracket.
pub fn boundary_point(c: CrossOver) -> (point: Option<Point3>)
    ensures
        point == crossing_point(c),
{
    let limit = max(c.width, Real { bits: DRIFT_FLOOR });
    if c.drift.gt(limit) {
        return None;
    }
    match c.refined {
        Some(p) => Some(p),
        None => Some(c.middle),
    }
}

// ── Straight pieces ─────────────────────────────────────────────────────────

/// A stretch of a line, by its parameters and its points.
#[derive(Clone, Copy, Debug, PartialEq, Eq, Structural)]
pub struct Stretch {
    /// Parameter at the start.
    pub lo: Real,
    /// Parameter at the end.
    pub hi: Real,
    /// Point at the start.
    pub from: Point3,
    /// Point at the end.
    pub to: Point3,
}

/// The common part of two stretches of one line: from the later start to the
/// earlier end.
pub open spec fn common(a: Stretch, b: Stretch) -> CurveView {
    CurveView {
        points: seq![
            if a.lo.nan() || a.lo.below(b.lo) {
                b.from
            } else {
                a.from
            },
            if a.hi.nan() || b.hi.below(a.hi) {
                b.to
            } else {
                a.to
            },
        ],
        closed: false,
    }
}

/// The common part of two stretches of one line.
fn common_part(a: Stretch, b: Stretch) -> (curve: SsiCurve)
    ensures
        curve@ == common(a, b),
{
    let from = if a.lo.is_nan() || a.lo.lt(b.lo) {
        b.from
    } else {
        a.from
    };
    let to = if a.hi.is_nan() || b.hi.lt(a.hi) {
        b.to
    } else {
        a.to
    };
    let points: Vec<Point3> = vec![from, to];
    let curve = SsiCurve { points, closed: false };
    assert(curve@ =~= common(a, b));
    curve
}

/// Two planes that meet in a line.
#[derive(Clone, Debug)]
pub struct PlanesProbe {
    /// Length of the cross product of the normals.
    pub spread: Real,
    /// Determinant of the two planes and the line's direction.
    pub det: Real,
    /// The stretches of the line inside the first face.
    pub first: Vec<Stretch>,
    /// The stretches of the line inside the second face.
    pub second: Vec<Stretch>,
    /// How long the common part of each two is; negative if there is none.
    pub gaps: Vec<Vec<Real>>,
}

/// Whether the probe says how long each common part is.
pub open spec fn planes_measured(p: PlanesProbe) -> bool {
    p.gaps@.len() == p.first@.len() && forall|i: int|
        0 <= i < p.gaps@.len() ==> (#[trigger] p.gaps@[i])@.len() == p.second@.len()
}

/// The common parts of one stretch with the first `k` of others.
pub open spec fn common_row(
    one: Stretch,
    others: Seq<Stretch>,
    gaps: Seq<Real>,
    k: int,
) -> Seq<CurveView>
    decreases k,
{
    if k <= 0 {
        Seq::empty()
    } else if (Real { bits: SPAN_GAP }).below(gaps[k - 1]) {
        common_row(one, others, gaps, k - 1).push(common(one, others[k - 1]))
    } else {
        common_row(one, others, gaps, k - 1)
    }
}

/// The common parts of the first `k` stretches of one face with all of the
/// other's.
pub open spec fn common_rows(p: PlanesProbe, k: int) -> Seq<CurveView>
    decreases k,
{
    if k <= 0 {
        Seq::empty()
    } else {
        common_rows(p, k - 1) + common_row(
            p.first@[k - 1],
            p.second@,
            p.gaps@[k - 1]@,
            p.second@.len() as int,
        )
    }
}

/// Whether two planes meet in a line: their normals spread, and the line's
/// point can be solved for.
pub open spec fn meet_in_a_line(spread: Real, det: Real) -> bool {
    !spread.below(Real { bits: DET_LIMIT }) && !det.unsigned().below(Real { bits: DET_LIMIT })
}

/// Whether two planes meet in a line; `spread` is the length of the cross
/// product of their normals, `det` the determinant of the two planes and the
/// line's direction.
pub fn planes_meet(spread: Real, det: Real) -> (meet: bool)
    ensures
        meet == meet_in_a_line(spread, det),
{
    let limit = Real { bits: DET_LIMIT };
    !spread.lt(limit) && !det.abs().lt(limit)
}

/// The curves of two planes: none where they are parallel.
pub open spec fn planes_curves(p: PlanesProbe) -> Seq<CurveView> {
    if meet_in_a_line(p.spread, p.det) {
        common_rows(p, p.first@.len() as int)
    } else {
        Seq::empty()
    }
}

/// The segments in which two planar faces meet.
pub fn plane_plane(p: &PlanesProbe) -> (curves: Vec<SsiCurve>)
    requires
        planes_measured(*p),
    ensures
        curve_views(curves@) == planes_curves(*p),
{
    let mut curves: Vec<SsiCurve> = Vec::new();
    assert(curve_views(curves@) =~= Seq::empty());
    if !planes_meet(p.spread, p.det) {
        return curves;
    }
    let mut i: usize = 0;
    while i < p.first.len()
        invariant
            planes_measured(*p),
            i <= p.first@.len(),
            curve_views(curves@) == common_rows(*p, i as int),
        decreases p.first@.len() - i,
    {
        let ghost done = curve_views(curves@);
        let one = p.first[i];
        let gaps: &Vec<Real> = &p.gaps[i];
        let mut j: usize = 0;
        assert(gaps@.len() == p.second@.len());
        assert(done =~= done + common_row(one, p.second@, gaps@, 0));
        while j < p.second.len()
            invariant
                gaps@.len() == p.second@.len(),
                j <= p.second@.len(),
                curve_views(curves@) == done + common_row(one, p.second@, gaps@, j as int),
            decreases p.second@.len() - j,
        {
            if gaps[j].gt(Real { bits: SPAN_GAP }) {
                let ghost before = curves@;
                let part = common_part(one, p.second[j]);
                proof {
                    lemma_curves_push(before, part);
                }
                curves.push(part);
            }
            j += 1;
            assert(curve_views(curves@) =~= done + common_row(one, p.second@, gaps@, j as int));
        }
        i += 1;
    }
    curves
}

/// A line along a cylinder, sampled from rim to rim.
#[derive(Clone, Debug)]
pub struct RulingProbe {
    /// The samples.
    pub points: Vec<Point3>,
    /// Which of them are over the plane's region.
    pub inside: Vec<bool>,
    /// How far apart any two of them are along the line.
    pub spans: Vec<Vec<Real>>,
}

/// Whether the probe's tables fit its samples.
pub open spec fn ruling_measured(r: RulingProbe) -> bool {
    r.inside@.len() == r.points@.len() && covers(r.spans@, r.points@.len() as int)
}

/// The first sample from `k` on that is outside; the length if none.
pub open spec fn line_end(inside: Seq<bool>, k: int) -> int
    decreases inside.len() - k,
{
    if k >= inside.len() {
        inside.len() as int
    } else if inside[k] {
        line_end(inside, k + 1)
    } else {
        k
    }
}

/// The pieces of a line from sample `k` on: each run of inside samples that has
/// a length.
pub open spec fn ruling_pieces(r: RulingProbe, k: int) -> Seq<CurveView>
    decreases r.inside@.len() - k,
{
    let n = r.inside@.len() as int;
    if k >= n {
        Seq::empty()
    } else if !r.inside@[k] {
        ruling_pieces(r, k + 1)
    } else {
        let e = line_end(r.inside@, k);
        if e <= k || e > n {
            Seq::empty()
        } else if (Real { bits: SPAN_GAP }).below(r.spans@[k]@[e - 1]) {
            seq![CurveView { points: seq![r.points@[k], r.points@[e - 1]], closed: false }]
                + ruling_pieces(r, e)
        } else {
            ruling_pieces(r, e)
        }
    }
}

/// What `line_end` finds.
proof fn lemma_line_end(inside: Seq<bool>, k: int)
    requires
        0 <= k <= inside.len(),
    ensures
        k <= line_end(inside, k) <= inside.len(),
        k < inside.len() && inside[k] ==> k < line_end(inside, k),
    decreases inside.len() - k,
{
    if k < inside.len() && inside[k] {
        lemma_line_end(inside, k + 1);
    }
}

/// The pieces of a line along a cylinder that are over the plane's region.
pub fn clip_ruling_line(r: &RulingProbe) -> (curves: Vec<SsiCurve>)
    requires
        ruling_measured(*r),
    ensures
        curve_views(curves@) == ruling_pieces(*r, 0),
{
    let n: usize = r.points.len();
    let mut curves: Vec<SsiCurve> = Vec::new();
    let mut k: usize = 0;
    let ghost whole = ruling_pieces(*r, 0);
    assert(curve_views(curves@) + ruling_pieces(*r, 0) =~= whole);
    while k < n
        invariant
            n == r.points@.len(),
            ruling_measured(*r),
            k <= n,
            whole == curve_views(curves@) + ruling_pieces(*r, k as int),
        decreases n - k,
    {
        if !r.inside[k] {
            k += 1;
            continue;
        }
        let from: usize = k;
        let ghost e = line_end(r.inside@, from as int);
        proof {
            lemma_line_end(r.inside@, from as int);
        }
        while k < n && r.inside[k]
            invariant
                n == r.inside@.len(),
                from <= k <= n,
                e == line_end(r.inside@, k as int),
            decreases n - k,
        {
            k += 1;
        }
        assert(k == e);
        let last: usize = k - 1;
        assert(r.spans@[from as int]@.len() >= n);
        let ghost before = curves@;
        if r.spans[from][last].gt(Real { bits: SPAN_GAP }) {
            let points: Vec<Point3> = vec![r.points[from], r.points[last]];
            let piece = SsiCurve { points, closed: false };
            proof {
                assert(piece@ =~= CurveView {
                    points: seq![r.points@[from as int], r.points@[e - 1]],
                    closed: false,
                });
                lemma_curves_push(before, piece);
            }
            curves.push(piece);
        }
        assert(whole =~= curve_views(curves@) + ruling_pieces(*r, k as int));
    }
    assert(whole =~= curve_views(curves@));
    curves
}

// ── A line and a polygon ────────────────────────────────────────────────────

/// Where a line crosses the line of a polygon's edge.
#[derive(Clone, Copy, Debug, PartialEq, Eq, Structural)]
pub struct EdgeCrossing {
    /// Determinant of the two directions.
    pub det: Real,
    /// Parameter along the line.
    pub along: Real,
    /// Parameter along the edge, 0 to 1.
    pub across: Real,
}

/// Whether a crossing is one with the edge itself.
pub open spec fn hits_edge(c: EdgeCrossing) -> bool {
    !c.det.unsigned().below(Real { bits: DET_LIMIT }) && (Real { bits: NEG_SPAN_GAP }).at_most(
        c.across,
    ) && c.across.at_most(Real { bits: PAST_ONE })
}

/// The edges hit, among the first `k`.
pub open spec fn edges_hit(crossings: Seq<EdgeCrossing>, k: int) -> Seq<usize>
    decreases k,
{
    if k <= 0 {
        Seq::empty()
    } else if hits_edge(crossings[k - 1]) {
        edges_hit(crossings, k - 1).push((k - 1) as usize)
    } else {
        edges_hit(crossings, k - 1)
    }
}

/// Where each crossing stands along the line.
pub open spec fn crossing_places(crossings: Seq<EdgeCrossing>) -> Seq<Place> {
    Seq::new(crossings.len(), |i: int| Place { piece: 0, along: crossings[i].along })
}

/// The crossings in order along the line, those on one spot taken once.
pub open spec fn crossings_in_order(
    crossings: Seq<EdgeCrossing>,
    apart: Seq<Vec<Real>>,
) -> Seq<usize> {
    let sorted = ordered(
        crossing_places(crossings),
        edges_hit(crossings, crossings.len() as int),
    );
    thinned(apart, Apart::NotBelow(Real { bits: SPAN_GAP }), sorted, sorted.len() as int)
}

/// Of the first `k` neighbouring pairs of a list, those with an inside middle.
pub open spec fn inside_pairs(list: Seq<usize>, inside: Seq<Vec<bool>>, k: int) -> Seq<
    (usize, usize),
>
    decreases k,
{
    if k <= 0 {
        Seq::empty()
    } else if inside[list[k - 1] as int]@[list[k] as int] {
        inside_pairs(list, inside, k - 1).push((list[k - 1], list[k]))
    } else {
        inside_pairs(list, inside, k - 1)
    }
}

/// Whether a table of flags covers samples `0..n` against each other.
pub open spec fn flags_cover(table: Seq<Vec<bool>>, n: int) -> bool {
    table.len() >= n && forall|i: int| 0 <= i < n ==> (#[trigger] table[i])@.len() >= n
}

/// What `edges_hit` holds.
proof fn lemma_edges_hit(crossings: Seq<EdgeCrossing>, k: int)
    requires
        0 <= k <= crossings.len() <= usize::MAX,
    ensures
        ascending(edges_hit(crossings, k)),
        all_below(edges_hit(crossings, k), k),
        forall|i: int|
            0 <= i < edges_hit(crossings, k).len() ==> hits_edge(
                crossings[(#[trigger] edges_hit(crossings, k)[i]) as int],
            ),
    decreases k,
{
    if k > 0 {
        lemma_edges_hit(crossings, k - 1);
    }
}

/// The stretches of a line inside a polygon, each by the edges at its ends.
/// `apart` holds the distances between any two crossings along the line, and
/// `inside` whether the middle between them is in the polygon.
pub fn line_in_polygon(
    crossings: &[EdgeCrossing],
    apart: &Vec<Vec<Real>>,
    inside: &Vec<Vec<bool>>,
) -> (pairs: Vec<(usize, usize)>)
    requires
        covers(apart@, crossings@.len() as int),
        flags_cover(inside@, crossings@.len() as int),
        forall|i: int|
            0 <= i < crossings@.len() && hits_edge(#[trigger] crossings@[i])
                ==> !crossings@[i].along.nan(),
    ensures
        pairs@ == inside_pairs(
            crossings_in_order(crossings@, apart@),
            inside@,
            crossings_in_order(crossings@, apart@).len() - 1,
        ),
{
    let n: usize = crossings.len();
    let mut hit: Vec<usize> = Vec::new();
    let mut places: Vec<Place> = Vec::new();
    let mut k: usize = 0;
    while k < n
        invariant
            n == crossings@.len(),
            k <= n,
            hit@ == edges_hit(crossings@, k as int),
            places@ == crossing_places(crossings@).subrange(0, k as int),
        decreases n - k,
    {
        let c = crossings[k];
        places.push(Place { piece: 0, along: c.along });
        if !c.det.abs().lt(Real { bits: DET_LIMIT }) && c.across.ge(Real { bits: NEG_SPAN_GAP })
            && c.across.le(Real { bits: PAST_ONE }) {
            hit.push(k);
        }
        k += 1;
        assert(places@ =~= crossing_places(crossings@).subrange(0, k as int));
    }
    proof {
        lemma_edges_hit(crossings@, n as int);
        assert(places@ =~= crossing_places(crossings@));
    }
    assert(placed(places@, hit@)) by {
        assert forall|i: int| 0 <= i < hit@.len() implies (#[trigger] hit@[i]) < places@.len()
            && !places@[hit@[i] as int].along.nan() by {
            assert(hits_edge(crossings@[hit@[i] as int]));
        }
    }
    let sorted = arrange_places(&places, &hit);
    assert(all_below(sorted@, n as int)) by {
        assert forall|i: int| 0 <= i < sorted@.len() implies (#[trigger] sorted@[i]) < n by {
            assert(sorted@.contains(sorted@[i]));
            assert(hit@.contains(sorted@[i]));
        }
    }
    let rule = Apart::NotBelow(Real { bits: SPAN_GAP });
    let list = thin(apart, rule, &sorted);
    proof {
        lemma_thinned(apart@, rule, sorted@, sorted@.len() as int, n as int);
    }
    let mut pairs: Vec<(usize, usize)> = Vec::new();
    if list.len() == 0 {
        return pairs;
    }
    let mut i: usize = 1;
    while i < list.len()
        invariant
            1 <= i <= list@.len(),
            all_below(list@, n as int),
            flags_cover(inside@, n as int),
            pairs@ == inside_pairs(list@, inside@, i - 1),
        decreases list@.len() - i,
    {
        let a: usize = list[i - 1];
        let b: usize = list[i];
        assert(list@[i - 1] < n && list@[i as int] < n);
        assert(inside@[a as int]@.len() >= n);
        if inside[a][b] {
            pairs.push((a, b));
        }
        i += 1;
    }
    pairs
}

// ── A plane and a cylinder ──────────────────────────────────────────────────

/// A sample of the conic in which a plane meets a cylinder.
#[derive(Clone, Copy, Debug, PartialEq, Eq, Structural)]
pub struct ConicSample {
    /// The point.
    pub point: Point3,
    /// How far along the axis it is.
    pub along: Real,
    /// Whether it is over the plane's region.
    pub over: bool,
}

/// 1e-9: a plane whose normal has a smaller cosine with a cylinder's axis is
/// along it.
pub const ALONG_AXIS: u64 = 0x3e112e0be826d695;

/// How a plane lies to a cylinder.
#[derive(Clone, Copy, Debug, PartialEq, Eq, Structural)]
pub enum ConicKind {
    /// Across the axis.
    Across,
    /// Along the axis, too far off to meet.
    Apart,
    /// Along the axis, meeting in one line.
    Touching,
    /// Along the axis, meeting in two lines.
    Through,
}

/// How a plane lies to a cylinder.
pub open spec fn lies_to(cos: Real, half2: Real) -> ConicKind {
    if !cos.unsigned().below(Real { bits: ALONG_AXIS }) {
        ConicKind::Across
    } else if half2.below(Real { bits: 0 }) {
        ConicKind::Apart
    } else if (Real { bits: 0 }).below(half2) {
        ConicKind::Through
    } else {
        ConicKind::Touching
    }
}

/// How a plane lies to a cylinder; `cos` is the cosine between normal and axis,
/// `half2` the square of half the chord that the plane cuts out of the section
/// if it is along the axis.
pub fn conic_kind(cos: Real, half2: Real) -> (kind: ConicKind)
    ensures
        kind == lies_to(cos, half2),
{
    if !cos.abs().lt(Real { bits: ALONG_AXIS }) {
        ConicKind::Across
    } else if half2.lt(Real { bits: 0 }) {
        ConicKind::Apart
    } else if half2.gt(Real { bits: 0 }) {
        ConicKind::Through
    } else {
        ConicKind::Touching
    }
}

/// How a plane meets a cylinder.
#[derive(Clone, Debug)]
pub enum ConicProbe {
    /// In a circle or an ellipse.
    Round {
        /// Samples of the curve.
        samples: Vec<ConicSample>,
        /// The far end of the cylinder, with its tolerance.
        top: Real,
    },
    /// In lines along the axis.
    Rulings(Vec<RulingProbe>),
    /// Not at all.
    Missed,
}

/// Whether the probe's tables fit.
pub open spec fn conic_measured(c: ConicProbe) -> bool {
    match c {
        ConicProbe::Rulings(lines) => forall|i: int|
            0 <= i < lines@.len() ==> ruling_measured(#[trigger] lines@[i]),
        _ => true,
    }
}

/// Whether a sample is over the plane's region and between the cylinder's ends.
pub open spec fn sample_counts(s: ConicSample, top: Real) -> bool {
    (Real { bits: NEG_SPAN_GAP }).at_most(s.along) && s.along.at_most(top) && s.over
}

/// The pieces of the first `k` lines.
pub open spec fn rulings_pieces(lines: Seq<RulingProbe>, k: int) -> Seq<CurveView>
    decreases k,
{
    if k <= 0 {
        Seq::empty()
    } else {
        rulings_pieces(lines, k - 1) + ruling_pieces(lines[k - 1], 0)
    }
}

/// The points of a sampled conic.
pub open spec fn sample_points(samples: Seq<ConicSample>) -> Seq<Point3> {
    Seq::new(samples.len(), |i: int| samples[i].point)
}

/// Which samples of a conic count.
pub open spec fn sample_flags(samples: Seq<ConicSample>, top: Real) -> Seq<bool> {
    Seq::new(samples.len(), |i: int| sample_counts(samples[i], top))
}

/// The curves of a plane and a cylinder.
pub open spec fn conic_curves(c: ConicProbe) -> Seq<CurveView> {
    match c {
        ConicProbe::Round { samples, top } => clipped(
            sample_points(samples@),
            sample_flags(samples@, top),
            no_ends(samples@.len() as int),
        ),
        ConicProbe::Rulings(lines) => rulings_pieces(lines@, lines@.len() as int),
        ConicProbe::Missed => Seq::empty(),
    }
}

/// The curves in which a planar face meets a cylindrical one.
pub fn plane_cylinder(c: &ConicProbe) -> (curves: Vec<SsiCurve>)
    requires
        conic_measured(*c),
    ensures
        curve_views(curves@) == conic_curves(*c),
{
    let mut curves: Vec<SsiCurve> = Vec::new();
    assert(curve_views(curves@) =~= Seq::empty());
    match c {
        ConicProbe::Missed => {},
        ConicProbe::Round { samples, top } => {
            let mut points: Vec<Point3> = Vec::new();
            let mut flags: Vec<bool> = Vec::new();
            let mut k: usize = 0;
            while k < samples.len()
                invariant
                    k <= samples@.len(),
                    points@ == sample_points(samples@).subrange(0, k as int),
                    flags@ == sample_flags(samples@, *top).subrange(0, k as int),
                decreases samples@.len() - k,
            {
                let s = samples[k];
                points.push(s.point);
                flags.push(
                    s.along.ge(Real { bits: NEG_SPAN_GAP }) && s.along.le(*top) && s.over,
                );
                k += 1;
                assert(points@ =~= sample_points(samples@).subrange(0, k as int));
                assert(flags@ =~= sample_flags(samples@, *top).subrange(0, k as int));
            }
            assert(points@ =~= sample_points(samples@));
            assert(flags@ =~= sample_flags(samples@, *top));
            return clip_loop_to_arcs(&points, &flags);
        },
        ConicProbe::Rulings(lines) => {
            let mut k: usize = 0;
            while k < lines.len()
                invariant
                    k <= lines@.len(),
                    forall|i: int|
                        0 <= i < lines@.len() ==> ruling_measured(#[trigger] lines@[i]),
                    curve_views(curves@) == rulings_pieces(lines@, k as int),
                decreases lines@.len() - k,
            {
                let mut more = clip_ruling_line(&lines[k]);
                let ghost before = curves@;
                let ghost added = more@;
                curves.append(&mut more);
                assert(curve_views(curves@) =~= curve_views(before) + curve_views(added));
                k += 1;
            }
        },
    }
    curves
}

// ── Two cylinders ───────────────────────────────────────────────────────────

/// Two cylinders.
#[derive(Clone, Debug)]
pub struct CylindersProbe {
    /// How well the axes are aligned: the size of the cosine between them.
    pub alignment: Real,
    /// For parallel axes, each line in which the surfaces meet, as a stretch
    /// on either cylinder, and how long the common part is.
    pub lines: Vec<LinePair>,
    /// For other axes, the loops in which the tubes meet.
    pub loops: Vec<Vec<Point3>>,
}

/// Whether two parallel cylinders meet in lines; `half2` is the square of half
/// the chord that their sections have in common.
pub fn parallel_cylinders_meet(half2: Real) -> (meet: bool)
    ensures
        meet == !half2.at_most(Real { bits: 0 }),
{
    !half2.le(Real { bits: 0 })
}

/// One line on two cylinders.
#[derive(Clone, Copy, Debug, PartialEq, Eq, Structural)]
pub struct LinePair {
    /// The stretch on the first.
    pub first: Stretch,
    /// The stretch on the second.
    pub second: Stretch,
    /// How long the common part is; negative if there is none.
    pub gap: Real,
}

/// The common parts of the first `k` lines.
pub open spec fn line_parts(lines: Seq<LinePair>, k: int) -> Seq<CurveView>
    decreases k,
{
    if k <= 0 {
        Seq::empty()
    } else if (Real { bits: SPAN_GAP }).below(lines[k - 1].gap) {
        line_parts(lines, k - 1).push(common(lines[k - 1].first, lines[k - 1].second))
    } else {
        line_parts(lines, k - 1)
    }
}

/// The first `k` loops, those of at least three points.
pub open spec fn full_loops(loops: Seq<Vec<Point3>>, k: int) -> Seq<CurveView>
    decreases k,
{
    if k <= 0 {
        Seq::empty()
    } else if loops[k - 1]@.len() >= 3 {
        full_loops(loops, k - 1).push(CurveView { points: loops[k - 1]@, closed: true })
    } else {
        full_loops(loops, k - 1)
    }
}

/// The curves of two cylinders.
pub open spec fn cylinders_curves(c: CylindersProbe) -> Seq<CurveView> {
    if (Real { bits: PARALLEL }).below(c.alignment) {
        line_parts(c.lines@, c.lines@.len() as int)
    } else {
        full_loops(c.loops@, c.loops@.len() as int)
    }
}

/// The straight segments in which two parallel cylinders meet.
pub fn parallel_cyl_cyl(lines: &[LinePair]) -> (curves: Vec<SsiCurve>)
    ensures
        curve_views(curves@) == line_parts(lines@, lines@.len() as int),
{
    let mut curves: Vec<SsiCurve> = Vec::new();
    assert(curve_views(curves@) =~= Seq::empty());
    let mut k: usize = 0;
    while k < lines.len()
        invariant
            k <= lines@.len(),
            curve_views(curves@) == line_parts(lines@, k as int),
        decreases lines@.len() - k,
    {
        if lines[k].gap.gt(Real { bits: SPAN_GAP }) {
            let ghost before = curves@;
            let part = common_part(lines[k].first, lines[k].second);
            proof {
                lemma_curves_push(before, part);
            }
            curves.push(part);
        }
        k += 1;
    }
    curves
}

/// A closed curve through given points.
fn closed_curve(points: &[Point3]) -> (curve: SsiCurve)
    ensures
        curve@ == (CurveView { points: points@, closed: true }),
{
    let every = count_up(points.len());
    let copy = pick_points(points, &every);
    assert(copy@ =~= points@);
    SsiCurve { points: copy, closed: true }
}

/// The curves in which two cylindrical faces meet.
pub fn cyl_cyl(c: &CylindersProbe) -> (curves: Vec<SsiCurve>)
    ensures
        curve_views(curves@) == cylinders_curves(*c),
{
    if c.alignment.gt(Real { bits: PARALLEL }) {
        return parallel_cyl_cyl(&c.lines);
    }
    let mut curves: Vec<SsiCurve> = Vec::new();
    assert(curve_views(curves@) =~= Seq::empty());
    let mut k: usize = 0;
    while k < c.loops.len()
        invariant
            k <= c.loops@.len(),
            curve_views(curves@) == full_loops(c.loops@, k as int),
        decreases c.loops@.len() - k,
    {
        if c.loops[k].len() >= 3 {
            let ghost before = curves@;
            let curve = closed_curve(&c.loops[k]);
            proof {
                lemma_curves_push(before, curve);
            }
            curves.push(curve);
        }
        k += 1;
    }
    curves
}

// ── Traced loops ────────────────────────────────────────────────────────────

/// What is known of a place before a loop is traced from it.
#[derive(Clone, Copy, Debug, PartialEq, Eq, Structural)]
pub enum SeedMark {
    /// A sample of one surface, at a distance from the other.
    Near {
        /// The distance.
        distance: Real,
        /// How far it may be.
        limit: Real,
    },
    /// The same, over a region or not.
    Over {
        /// The distance.
        distance: Real,
        /// How far it may be.
        limit: Real,
        /// Whether the sample is over the region.
        over: bool,
    },
    /// A rough loop.
    Rough {
        /// How many samples it has.
        samples: usize,
    },
}

/// Whether a loop is traced from a place.
pub open spec fn worth_tracing(mark: SeedMark) -> bool {
    match mark {
        SeedMark::Near { distance, limit } => !limit.below(distance),
        SeedMark::Over { distance, limit, over } => !limit.below(distance) && over,
        SeedMark::Rough { samples } => samples >= 3,
    }
}

/// Whether a loop is traced from a place.
pub fn traces_from(mark: SeedMark) -> (r: bool)
    ensures
        r == worth_tracing(mark),
{
    match mark {
        SeedMark::Near { distance, limit } => !distance.gt(limit),
        SeedMark::Over { distance, limit, over } => !distance.gt(limit) && over,
        SeedMark::Rough { samples } => samples >= 3,
    }
}

/// A traced loop.
#[derive(Clone, Debug)]
pub struct LoopTrace {
    /// Its samples.
    pub points: Vec<Point3>,
    /// Which of them are on both faces.
    pub inside: Vec<bool>,
    /// The crossing point between each sample and the one before, if any.
    pub ends: Vec<Option<Point3>>,
}

/// How much two traced loops look alike.
#[derive(Clone, Copy, Debug, PartialEq, Eq, Structural)]
pub struct Likeness {
    /// The distance between their centres.
    pub centres: Real,
    /// The difference between their mean radii.
    pub radii: Real,
}

/// The loops traced between two curved surfaces, in the order traced.
#[derive(Clone, Debug)]
pub struct LoopsProbe {
    /// The loops.
    pub traces: Vec<LoopTrace>,
    /// How much any two are alike.
    pub alike: Vec<Vec<Likeness>>,
    /// Below this they are the same.
    pub limit: Real,
}

/// Which surfaces loops were traced between.
#[derive(Clone, Copy, Debug, PartialEq, Eq, Structural)]
pub enum LoopKind {
    /// A torus and a cylinder: whole loops, told apart by their centres.
    TorusCylinder,
    /// Two tori: told apart by their centres and radii, clipped at samples.
    Tori,
    /// A plane and a torus: clipped at crossing points.
    PlaneTorus,
}

/// Whether the probe's tables fit its loops.
pub open spec fn loops_measured(p: LoopsProbe) -> bool {
    &&& forall|i: int|
        0 <= i < p.traces@.len() ==> (#[trigger] p.traces@[i]).inside@.len()
            == p.traces@[i].points@.len() && p.traces@[i].ends@.len()
            == p.traces@[i].points@.len()
    &&& p.alike@.len() == p.traces@.len()
    &&& forall|i: int|
        0 <= i < p.alike@.len() ==> (#[trigger] p.alike@[i])@.len() == p.traces@.len()
}

/// Whether two loops are the same.
pub open spec fn same_loop(p: LoopsProbe, kind: LoopKind, i: int, j: int) -> bool {
    p.alike@[i]@[j].centres.below(p.limit) && (kind == LoopKind::TorusCylinder
        || p.alike@[i]@[j].radii.below(p.limit))
}

/// Whether a loop is one of several already taken.
pub open spec fn repeats(p: LoopsProbe, kind: LoopKind, taken: Seq<usize>, k: int) -> bool {
    exists|t: int| 0 <= t < taken.len() && same_loop(p, kind, #[trigger] taken[t] as int, k)
}

/// The loops taken among the first `k`: those of at least three points that
/// are not one of those taken before.
pub open spec fn taken(p: LoopsProbe, kind: LoopKind, k: int) -> Seq<usize>
    decreases k,
{
    if k <= 0 {
        Seq::empty()
    } else {
        let before = taken(p, kind, k - 1);
        if p.traces@[k - 1].points@.len() >= 3 && !repeats(p, kind, before, k - 1) {
            before.push((k - 1) as usize)
        } else {
            before
        }
    }
}

/// The curves of one loop.
pub open spec fn loop_curves(trace: LoopTrace, kind: LoopKind) -> Seq<CurveView> {
    match kind {
        LoopKind::TorusCylinder => seq![CurveView { points: trace.points@, closed: true }],
        LoopKind::Tori => clipped(
            trace.points@,
            trace.inside@,
            no_ends(trace.points@.len() as int),
        ),
        LoopKind::PlaneTorus => clipped(trace.points@, trace.inside@, trace.ends@),
    }
}

/// The curves of the first `k` loops of a list.
pub open spec fn traced_curves(p: LoopsProbe, kind: LoopKind, list: Seq<usize>, k: int) -> Seq<
    CurveView,
>
    decreases k,
{
    if k <= 0 {
        Seq::empty()
    } else {
        traced_curves(p, kind, list, k - 1) + loop_curves(p.traces@[list[k - 1] as int], kind)
    }
}

/// The curves of the loops traced between two surfaces.
pub open spec fn loops_curves(p: LoopsProbe, kind: LoopKind) -> Seq<CurveView> {
    let list = taken(p, kind, p.traces@.len() as int);
    traced_curves(p, kind, list, list.len() as int)
}

/// Every loop of at least three points is taken or the same as one taken
/// before it, and no two of those taken are the same.
pub proof fn law_each_loop_once(p: LoopsProbe, kind: LoopKind, k: int)
    requires
        0 <= k <= p.traces@.len() <= usize::MAX,
    ensures
        ascending(taken(p, kind, k)),
        all_below(taken(p, kind, k), k),
        forall|a: int, b: int|
            #![trigger taken(p, kind, k)[a], taken(p, kind, k)[b]]
            0 <= a < b < taken(p, kind, k).len() ==> !same_loop(
                p,
                kind,
                taken(p, kind, k)[a] as int,
                taken(p, kind, k)[b] as int,
            ),
        forall|j: int|
            #![trigger p.traces@[j]]
            0 <= j < k && p.traces@[j].points@.len() >= 3 ==> taken(p, kind, k).contains(
                j as usize,
            ) || repeats(p, kind, taken(p, kind, k), j),
    decreases k,
{
    if k > 0 {
        law_each_loop_once(p, kind, k - 1);
        let before = taken(p, kind, k - 1);
        let now = taken(p, kind, k);
        assert forall|j: int| #![trigger p.traces@[j]]
            0 <= j < k && p.traces@[j].points@.len() >= 3 implies now.contains(j as usize)
            || repeats(p, kind, now, j) by {
            if j < k - 1 {
                if before.contains(j as usize) {
                    let t = choose|t: int| 0 <= t < before.len() && before[t] == j as usize;
                    assert(now[t] == j as usize);
                } else {
                    let t = choose|t: int|
                        0 <= t < before.len() && same_loop(
                            p,
                            kind,
                            #[trigger] before[t] as int,
                            j,
                        );
                    assert(now[t] == before[t]);
                }
            } else if repeats(p, kind, before, j) {
                assert(now == before);
            } else {
                assert(now[now.len() - 1] == j as usize);
            }
        }
    }
}

/// Which of the traced loops are taken.
pub fn distinct_loops(p: &LoopsProbe, kind: LoopKind) -> (list: Vec<usize>)
    requires
        loops_measured(*p),
    ensures
        list@ == taken(*p, kind, p.traces@.len() as int),
{
    let mut list: Vec<usize> = Vec::new();
    let mut k: usize = 0;
    while k < p.traces.len()
        invariant
            loops_measured(*p),
            k <= p.traces@.len(),
            list@ == taken(*p, kind, k as int),
        decreases p.traces@.len() - k,
    {
        proof {
            law_each_loop_once(*p, kind, k as int);
        }
        if p.traces[k].points.len() >= 3 {
            let mut again = false;
            let mut t: usize = 0;
            while t < list.len()
                invariant
                    loops_measured(*p),
                    k < p.traces@.len(),
                    all_below(list@, k as int),
                    t <= list@.len(),
                    again == (exists|u: int|
                        0 <= u < t && same_loop(*p, kind, #[trigger] list@[u] as int, k as int)),
                decreases list@.len() - t,
            {
                let other: usize = list[t];
                assert(list@[t as int] < k);
                assert(p.alike@[other as int]@.len() == p.traces@.len());
                let like = p.alike[other][k];
                if like.centres.lt(p.limit) && (kind == LoopKind::TorusCylinder || like.radii.lt(
                    p.limit,
                )) {
                    assert(same_loop(*p, kind, list@[t as int] as int, k as int));
                    again = true;
                }
                t += 1;
            }
            if !again {
                list.push(k);
            }
        }
        k += 1;
    }
    list
}

/// The curves of the loops traced between two surfaces.
fn trace_curves(p: &LoopsProbe, kind: LoopKind) -> (curves: Vec<SsiCurve>)
    requires
        loops_measured(*p),
    ensures
        curve_views(curves@) == loops_curves(*p, kind),
{
    let list = distinct_loops(p, kind);
    let n: usize = p.traces.len();
    proof {
        law_each_loop_once(*p, kind, n as int);
    }
    let mut curves: Vec<SsiCurve> = Vec::new();
    assert(curve_views(curves@) =~= Seq::empty());
    let mut k: usize = 0;
    while k < list.len()
        invariant
            loops_measured(*p),
            all_below(list@, p.traces@.len() as int),
            k <= list@.len(),
            curve_views(curves@) == traced_curves(*p, kind, list@, k as int),
        decreases list@.len() - k,
    {
        assert(list@[k as int] < p.traces@.len());
        let trace: &LoopTrace = &p.traces[list[k]];
        let mut more: Vec<SsiCurve> = Vec::new();
        match kind {
            LoopKind::TorusCylinder => {
                more.push(closed_curve(&trace.points));
                assert(curve_views(more@) =~= loop_curves(*trace, kind));
            },
            LoopKind::Tori => {
                more = clip_loop_to_arcs(&trace.points, &trace.inside);
            },
            LoopKind::PlaneTorus => {
                more = clip_loop(&trace.points, &trace.inside, &trace.ends);
            },
        }
        let ghost before = curves@;
        let ghost added = more@;
        curves.append(&mut more);
        assert(curve_views(curves@) =~= curve_views(before) + curve_views(added));
        k += 1;
    }
    curves
}

/// The loops in which a torus meets a cylinder.
pub fn torus_cyl(p: &LoopsProbe) -> (curves: Vec<SsiCurve>)
    requires
        loops_measured(*p),
    ensures
        curve_views(curves@) == loops_curves(*p, LoopKind::TorusCylinder),
{
    trace_curves(p, LoopKind::TorusCylinder)
}

/// The curves in which two bends meet.
pub fn torus_torus(p: &LoopsProbe) -> (curves: Vec<SsiCurve>)
    requires
        loops_measured(*p),
    ensures
        curve_views(curves@) == loops_curves(*p, LoopKind::Tori),
{
    trace_curves(p, LoopKind::Tori)
}

/// The curves in which a planar face meets a bend.
pub fn plane_torus(p: &LoopsProbe) -> (curves: Vec<SsiCurve>)
    requires
        loops_measured(*p),
    ensures
        curve_views(curves@) == loops_curves(*p, LoopKind::PlaneTorus),
{
    trace_curves(p, LoopKind::PlaneTorus)
}

// ── What a face covers ──────────────────────────────────────────────────────

/// From the smallest to the largest of several numbers, if that is a span.
pub open spec fn span_of(values: Seq<Real>) -> Option<(Real, Real)> {
    let lo = least(values, values.len() as int);
    let hi = greatest(values, values.len() as int);
    if hi.at_most(lo) {
        None
    } else {
        Some((lo, hi))
    }
}

/// From the smallest to the largest of several numbers, if that is a span.
fn find_span(values: &[Real]) -> (span: Option<(Real, Real)>)
    ensures
        span == span_of(values@),
{
    let mut lo = Real { bits: LARGEST };
    let mut hi = Real { bits: SMALLEST };
    let mut k: usize = 0;
    while k < values.len()
        invariant
            k <= values@.len(),
            lo == least(values@, k as int),
            hi == greatest(values@, k as int),
        decreases values@.len() - k,
    {
        let v = values[k];
        lo = min(lo, v);
        hi = max(hi, v);
        k += 1;
    }
    if hi.le(lo) {
        None
    } else {
        Some((lo, hi))
    }
}

/// The part of a cylinder that a face covers.
#[derive(Clone, Copy, Debug, PartialEq, Eq, Structural)]
pub enum Band {
    /// From the cylinder's origin on.
    Whole {
        /// The cylinder.
        surf: CylSurf,
        /// How far along the axis.
        length: Real,
    },
    /// Between two places along the axis.
    Between {
        /// The cylinder.
        surf: CylSurf,
        /// Where it starts.
        lo: Real,
        /// Where it ends.
        hi: Real,
    },
}

/// The part of a cylinder that a face covers, given how far along the axis the
/// samples of its loops are.
pub open spec fn band(face: Face, along: Seq<Real>) -> Option<Band> {
    match (face.geom, face.extent) {
        (FaceGeom::Cylinder(surf), FaceExtent::Cylinder { length, .. }) => Some(
            Band::Whole { surf, length },
        ),
        (FaceGeom::Cylinder(surf), _) => match span_of(along) {
            Some((lo, hi)) => Some(Band::Between { surf, lo, hi }),
            None => None,
        },
        _ => None,
    }
}

/// The part of a cylinder that a face covers.
pub fn cyl_band(brep: &BRep, face: FaceId, along: &[Real]) -> (b: Option<Band>)
    requires
        brep.wf(),
        brep@.faces.dom().contains(face),
    ensures
        b == band(brep@.faces[face], along@),
{
    match brep.faces.get(face) {
        None => None,
        Some(f) => match &f.geom {
            FaceGeom::Cylinder(surf) => match &f.extent {
                FaceExtent::Cylinder { length, .. } => Some(
                    Band::Whole { surf: *surf, length: *length },
                ),
                _ => match find_span(along) {
                    Some((lo, hi)) => Some(Band::Between { surf: *surf, lo, hi }),
                    None => None,
                },
            },
            _ => None,
        },
    }
}

/// What was measured of a bend's arc.
#[derive(Clone, Debug)]
pub struct BendProbe {
    /// How far apart the centres of its two end circles are.
    pub gap: Real,
    /// The angle at which it starts.
    pub start: Real,
    /// The angle at which it ends.
    pub end: Real,
    /// The angles of the samples of its loops.
    pub angles: Vec<Real>,
}

/// The arc of a torus that a face covers: a full turn where its end circles
/// coincide, from circle to circle, or as far as its loops reach.
pub open spec fn bend(face: Face, probe: BendProbe) -> Option<(TorusSurf, Real, Real)> {
    match (face.geom, face.extent) {
        (FaceGeom::Torus(surf), FaceExtent::TorusFillet { .. }) => if probe.gap.below(
            Real { bits: DRIFT_FLOOR },
        ) {
            Some((surf, Real { bits: 0 }, Real { bits: TURN }))
        } else {
            Some((surf, probe.start, probe.end))
        },
        (FaceGeom::Torus(surf), _) => if probe.angles@.len() == 0 {
            None
        } else {
            match span_of(probe.angles@) {
                Some((lo, hi)) => Some((surf, lo, hi)),
                None => None,
            }
        },
        _ => None,
    }
}

/// The arc of a torus that a face covers.
pub fn torus_arc(brep: &BRep, face: FaceId, probe: &BendProbe) -> (b: Option<
    (TorusSurf, Real, Real),
>)
    requires
        brep.wf(),
        brep@.faces.dom().contains(face),
    ensures
        b == bend(brep@.faces[face], *probe),
{
    match brep.faces.get(face) {
        None => None,
        Some(f) => match &f.geom {
            FaceGeom::Torus(surf) => match &f.extent {
                FaceExtent::TorusFillet { .. } => {
                    if probe.gap.lt(Real { bits: DRIFT_FLOOR }) {
                        Some((*surf, Real { bits: 0 }, Real { bits: TURN }))
                    } else {
                        Some((*surf, probe.start, probe.end))
                    }
                },
                _ => {
                    if probe.angles.len() == 0 {
                        return None;
                    }
                    match find_span(&probe.angles) {
                        Some((lo, hi)) => Some((*surf, lo, hi)),
                        None => None,
                    }
                },
            },
            _ => None,
        },
    }
}

// ── Two faces ───────────────────────────────────────────────────────────────

/// What was measured between two faces; nothing where one of them covers no
/// part of its surface that can be told.
#[derive(Clone, Debug)]
pub enum PairProbe {
    /// Between two planes.
    Planes(PlanesProbe),
    /// Between a plane and a cylinder.
    Conic(ConicProbe),
    /// Between two cylinders.
    Cylinders(CylindersProbe),
    /// Loops between a torus and another surface.
    Loops(LoopsProbe),
    /// Nothing.
    Nothing,
}

/// Whether the probe is one for how the pair is intersected, and complete.
pub open spec fn probe_fits(how: SurfacePair, probe: PairProbe) -> bool {
    match probe {
        PairProbe::Nothing => true,
        PairProbe::Planes(p) => how == SurfacePair::Planes && planes_measured(p),
        PairProbe::Conic(c) => (how == SurfacePair::PlaneCylinder || how == SurfacePair::CylinderPlane)
            && conic_measured(c),
        PairProbe::Cylinders(_) => how == SurfacePair::Cylinders,
        PairProbe::Loops(p) => (how == SurfacePair::TorusCylinder || how == SurfacePair::CylinderTorus
            || how == SurfacePair::Tori || how == SurfacePair::PlaneTorus || how == SurfacePair::TorusPlane)
            && loops_measured(p),
    }
}

/// The curves of a pair of faces.
pub open spec fn pair_curves(how: SurfacePair, probe: PairProbe) -> Seq<CurveView> {
    match probe {
        PairProbe::Nothing => Seq::empty(),
        PairProbe::Planes(p) => planes_curves(p),
        PairProbe::Conic(c) => conic_curves(c),
        PairProbe::Cylinders(c) => cylinders_curves(c),
        PairProbe::Loops(p) => match how {
            SurfacePair::Tori => loops_curves(p, LoopKind::Tori),
            SurfacePair::PlaneTorus => loops_curves(p, LoopKind::PlaneTorus),
            SurfacePair::TorusPlane => loops_curves(p, LoopKind::PlaneTorus),
            _ => loops_curves(p, LoopKind::TorusCylinder),
        },
    }
}

/// The curves in which two faces meet, for every pair of surfaces but plane
/// and torus.
pub fn intersect_faces(a: &BRep, fa: FaceId, b: &BRep, fb: FaceId, probe: &PairProbe) -> (curves:
    Vec<SsiCurve>)
    requires
        a.wf(),
        b.wf(),
        a@.faces.dom().contains(fa),
        b@.faces.dom().contains(fb),
        probe_fits(
            surface_pair(a@.faces[fa].geom, b@.faces[fb].geom, SsiOptions { plane_torus: false }),
            *probe,
        ),
    ensures
        curve_views(curves@) == pair_curves(
            surface_pair(a@.faces[fa].geom, b@.faces[fb].geom, SsiOptions { plane_torus: false }),
            *probe,
        ),
{
    intersect_faces_with(a, fa, b, fb, SsiOptions { plane_torus: false }, probe)
}

/// The curves in which two faces meet, for the chosen pairs of surfaces.
pub fn intersect_faces_with(
    a: &BRep,
    fa: FaceId,
    b: &BRep,
    fb: FaceId,
    opts: SsiOptions,
    probe: &PairProbe,
) -> (curves: Vec<SsiCurve>)
    requires
        a.wf(),
        b.wf(),
        a@.faces.dom().contains(fa),
        b@.faces.dom().contains(fb),
        probe_fits(surface_pair(a@.faces[fa].geom, b@.faces[fb].geom, opts), *probe),
    ensures
        curve_views(curves@) == pair_curves(
            surface_pair(a@.faces[fa].geom, b@.faces[fb].geom, opts),
            *probe,
        ),
{
    let none: Vec<SsiCurve> = Vec::new();
    assert(curve_views(none@) =~= Seq::empty());
    let how = match (a.faces.get(fa), b.faces.get(fb)) {
        (Some(one), Some(other)) => pair_surfaces(&one.geom, &other.geom, opts),
        _ => SurfacePair::Passed,
    };
    match probe {
        PairProbe::Nothing => none,
        PairProbe::Planes(p) => plane_plane(p),
        PairProbe::Conic(c) => plane_cylinder(c),
        PairProbe::Cylinders(c) => cyl_cyl(c),
        PairProbe::Loops(p) => match how {
            SurfacePair::Tori => torus_torus(p),
            SurfacePair::PlaneTorus => plane_torus(p),
            SurfacePair::TorusPlane => plane_torus(p),
            _ => torus_cyl(p),
        },
    }
}

/// Without the choice of plane and torus, no such pair gives a curve; with it,
/// no other pair gives a different one.
pub proof fn law_plane_torus_is_a_choice(a: FaceGeom, b: FaceGeom, probe: PairProbe)
    ensures
        ({
            let without = surface_pair(a, b, SsiOptions { plane_torus: false });
            let with = surface_pair(a, b, SsiOptions { plane_torus: true });
            if with == SurfacePair::PlaneTorus || with == SurfacePair::TorusPlane {
                without == SurfacePair::Passed && (probe_fits(without, probe) ==> pair_curves(
                    without,
                    probe,
                ) == Seq::<CurveView>::empty())
            } else {
                without == with
            }
        }),
{
}

} // verus!
