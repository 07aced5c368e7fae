//! What the curves in which two faces meet are made of.

use vstd::prelude::*;

use crate::cut::{greatest, least};
use crate::entities::{Face, FaceExtent, FaceGeom};
use crate::geometry::Point3;
use crate::intersect::{
    band, bend, common, common_row, common_rows, conic_curves, crossing_point, crossings_in_order,
    cylinders_curves, edges_hit, full_loops, hits_edge, inside_pairs, lies_to, line_end, line_parts,
    loop_curves, loops_curves, meet_in_a_line, on_arc, on_signed_arc, pair_curves, planes_curves,
    planes_measured, ray_crosses, ray_crossings, ruling_measured, ruling_pieces, rulings_pieces,
    same_loop, sample_counts, sample_flags, sample_points, span_of, taken, traced_curves,
    worth_tracing, ArcMark, Band, BendProbe, ConicKind, ConicProbe, ConicSample, CrossOver,
    CylindersProbe, EdgeCrossing, EdgeSide, LinePair, LoopKind, LoopTrace, LoopsProbe, PairProbe,
    PlanesProbe, RulingProbe, SeedMark, Stretch,
};
use crate::polyline::{
    all_below, ascending, in_order, law_thinned_is_spaced, lemma_ordered_is_there, lemma_thinned,
    ordered, placed, same_numbers, thinned, Apart, Place,
};
use crate::scalar::{larger, Real};
use crate::ssi::{
    arc, arcs_from, clipped, comes_in, first_entry, no_ends, optional, run_end, stretch,
    surface_pair, turned, CurveView, SsiOptions, SurfacePair,
};

verus! {

/// 1e-9.
pub open spec fn hair() -> Real {
    Real { bits: 0x3e112e0be826d695 }
}

/// 1e-12.
pub open spec fn speck() -> Real {
    Real { bits: 0x3d719799812dea11 }
}

// ── Points ──────────────────────────────────────────────────────────────────

/// The edges that the ray from a point crosses: those with one end above the
/// point's height and one not above it, beyond the point.
pub open spec fn crossed(edges: Seq<EdgeSide>, across: Real, height: Real) -> Seq<EdgeSide> {
    edges.filter(
        |e: EdgeSide|
            across.below(e.meets) && (height.below(e.from) && !height.below(e.to) || height.below(
                e.to,
            ) && !height.below(e.from)),
    )
}

proof fn lemma_crossings(edges: Seq<EdgeSide>, across: Real, height: Real, k: int)
    requires
        0 <= k <= edges.len(),
    ensures
        ray_crossings(edges, across, height, k) == crossed(edges.take(k), across, height).len(),
    decreases k,
{
    reveal(Seq::filter);
    if k > 0 {
        lemma_crossings(edges, across, height, k - 1);
        assert(edges.take(k).drop_last() =~= edges.take(k - 1));
        assert(edges.take(k).last() == edges[k - 1]);
    }
}

/// A ray crosses just the edges that straddle its height ahead of it.
pub proof fn law_rays_count_what_they_cross(edges: Seq<EdgeSide>, across: Real, height: Real)
    ensures
        ray_crossings(edges, across, height, edges.len() as int) == crossed(
            edges,
            across,
            height,
        ).len(),
{
    lemma_crossings(edges, across, height, edges.len() as int);
    assert(edges.take(edges.len() as int) =~= edges);
}

/// A mark is on an arc as far as the arc reaches; on one that runs all the way
/// round (to 1e-9 of a turn) every mark is.
pub proof fn law_marks_on_arcs(mark: ArcMark)
    ensures
        mark.reach.below(mark.along) || mark.along.nan() || mark.reach.nan() ==> !on_arc(mark),
        mark.along.at_most(mark.reach) ==> on_arc(mark) && on_signed_arc(mark),
        (Real { bits: 0x401921fb5432ff0c }).at_most(mark.sweep.unsigned()) ==> on_signed_arc(mark),
        !(Real { bits: 0x401921fb5432ff0c }).at_most(mark.sweep.unsigned()) ==> on_signed_arc(mark)
            == on_arc(mark),
{
}

/// A crossing point is the refined one where there is one, and the middle
/// otherwise; none if the refinement moved by more than the samples are apart and
/// by more than 1e-6.
pub proof fn law_crossing_points(c: CrossOver)
    requires
        !c.width.nan(),
    ensures
        crossing_point(c) is None <==> c.width.below(c.drift) && (Real {
            bits: 0x3eb0c6f7a0b5ed8d,
        }).below(c.drift),
        crossing_point(c) is Some && c.refined is Some ==> crossing_point(c) == c.refined,
        crossing_point(c) is Some && c.refined is None ==> crossing_point(c) == Some(c.middle),
{
}

// ── Straight pieces ─────────────────────────────────────────────────────────

/// Whether a curve is the common part of two stretches: open, from where the
/// later of them starts to where the earlier of them ends.
pub open spec fn is_common(curve: CurveView, a: Stretch, b: Stretch) -> bool {
    &&& !curve.closed
    &&& curve.points.len() == 2
    &&& a.lo.below(b.lo) ==> curve.points[0] == b.from
    &&& b.lo.below(a.lo) ==> curve.points[0] == a.from
    &&& curve.points[0] == a.from || curve.points[0] == b.from
    &&& b.hi.below(a.hi) ==> curve.points[1] == b.to
    &&& a.hi.below(b.hi) ==> curve.points[1] == a.to
    &&& curve.points[1] == a.to || curve.points[1] == b.to
}

/// Whether stretch `i` of the first face and `j` of the second have a common part:
/// one that is longer than 1e-9.
pub open spec fn share(p: PlanesProbe, i: int, j: int) -> bool {
    &&& 0 <= i < p.first@.len()
    &&& 0 <= j < p.second@.len()
    &&& hair().below(p.gaps@[i]@[j])
}

/// How many of the first `k` others share a part with stretch `i`.
pub open spec fn shares_in_row(p: PlanesProbe, i: int, k: int) -> int
    decreases k,
{
    if k <= 0 {
        0
    } else {
        shares_in_row(p, i, k - 1) + (if hair().below(p.gaps@[i]@[k - 1]) {
            1int
        } else {
            0
        })
    }
}

/// How many pairs with one of the first `i` stretches share a part.
pub open spec fn shares_in_rows(p: PlanesProbe, i: int) -> int
    decreases i,
{
    if i <= 0 {
        0
    } else {
        shares_in_rows(p, i - 1) + shares_in_row(p, i - 1, p.second@.len() as int)
    }
}

proof fn lemma_row(p: PlanesProbe, i: int, k: int)
    requires
        0 <= k <= p.second@.len(),
    ensures
        ({
            let row = common_row(p.first@[i], p.second@, p.gaps@[i]@, k);
            &&& row.len() == shares_in_row(p, i, k)
            &&& forall|j: int|
                0 <= j < k && hair().below(#[trigger] p.gaps@[i]@[j]) ==> 0 <= shares_in_row(
                    p,
                    i,
                    j,
                ) < row.len() && is_common(
                    row[shares_in_row(p, i, j)],
                    p.first@[i],
                    p.second@[j],
                )
        }),
    decreases k,
{
    if k > 0 {
        lemma_row(p, i, k - 1);
        let was = common_row(p.first@[i], p.second@, p.gaps@[i]@, k - 1);
        let row = common_row(p.first@[i], p.second@, p.gaps@[i]@, k);
        assert forall|j: int|
            0 <= j < k && hair().below(#[trigger] p.gaps@[i]@[j]) implies 0 <= shares_in_row(
            p,
            i,
            j,
        ) < row.len() && is_common(
            row[shares_in_row(p, i, j)],
            p.first@[i],
            p.second@[j],
        ) by {
            if j < k - 1 {
                assert(row[shares_in_row(p, i, j)] == was[shares_in_row(p, i, j)]);
            }
        }
    }
}

proof fn lemma_rows(p: PlanesProbe, n: int)
    requires
        0 <= n <= p.first@.len(),
        planes_measured(p),
    ensures
        ({
            let rows = common_rows(p, n);
            &&& rows.len() == shares_in_rows(p, n)
            &&& forall|i: int, j: int|
                0 <= i < n && #[trigger] share(p, i, j) ==> {
                    let at = shares_in_rows(p, i) + shares_in_row(p, i, j);
                    0 <= at < rows.len() && is_common(rows[at], p.first@[i], p.second@[j])
                }
        }),
    decreases n,
{
    if n > 0 {
        let was = common_rows(p, n - 1);
        let m = p.second@.len() as int;
        let row = common_row(p.first@[n - 1], p.second@, p.gaps@[n - 1]@, m);
        let rows = common_rows(p, n);
        lemma_rows(p, n - 1);
        lemma_row(p, n - 1, m);
        assert forall|i: int, j: int| 0 <= i < n && #[trigger] share(p, i, j) implies ({
            let at = shares_in_rows(p, i) + shares_in_row(p, i, j);
            0 <= at < rows.len() && is_common(rows[at], p.first@[i], p.second@[j])
        }) by {
            let at = shares_in_rows(p, i) + shares_in_row(p, i, j);
            if i < n - 1 {
                assert(rows[at] == was[at]);
            } else {
                assert(hair().below(p.gaps@[i]@[j]));
                assert(rows[at] == row[shares_in_row(p, i, j)]);
            }
        }
    }
}

/// Two planar faces meet in one segment for every two stretches of their common
/// line that share a part, one after the other, and in no more; in none if their
/// planes are parallel (1e-12).
pub proof fn law_planes_meet_where_they_share(p: PlanesProbe, i: int, j: int)
    requires
        planes_measured(p),
    ensures
        p.spread.below(speck()) || p.det.unsigned().below(speck()) ==> planes_curves(p).len() == 0,
        !p.spread.below(speck()) && !p.det.unsigned().below(speck()) ==> {
            &&& planes_curves(p).len() == shares_in_rows(p, p.first@.len() as int)
            &&& share(p, i, j) ==> {
                let at = shares_in_rows(p, i) + shares_in_row(p, i, j);
                0 <= at < planes_curves(p).len() && is_common(
                    planes_curves(p)[at],
                    p.first@[i],
                    p.second@[j],
                )
            }
        },
{
    lemma_rows(p, p.first@.len() as int);
}

/// Whether samples `k` up to `e` are a run: all inside, and none beside it is.
pub open spec fn is_run(inside: Seq<bool>, k: int, e: int) -> bool {
    &&& 0 <= k < e <= inside.len()
    &&& forall|i: int| k <= i < e ==> #[trigger] inside[i]
    &&& k > 0 ==> !inside[k - 1]
    &&& e < inside.len() ==> !inside[e]
}

/// The piece from one sample to another.
pub open spec fn piece(r: RulingProbe, k: int, e: int) -> CurveView {
    CurveView { points: seq![r.points@[k], r.points@[e - 1]], closed: false }
}

proof fn lemma_line_end_at(inside: Seq<bool>, k: int)
    requires
        0 <= k <= inside.len(),
    ensures
        k <= line_end(inside, k) <= inside.len(),
        forall|i: int| k <= i < line_end(inside, k) ==> #[trigger] inside[i],
        line_end(inside, k) < inside.len() ==> !inside[line_end(inside, k)],
    decreases inside.len() - k,
{
    if k < inside.len() && inside[k] {
        lemma_line_end_at(inside, k + 1);
    }
}

proof fn lemma_pieces_of_line(r: RulingProbe, at: int, k: int, e: int)
    requires
        ruling_measured(r),
        0 <= at <= k,
        at > 0 ==> !r.inside@[at - 1] || at == r.inside@.len() || !r.inside@[at],
        is_run(r.inside@, k, e),
        hair().below(r.spans@[k]@[e - 1]),
    ensures
        ruling_pieces(r, at).contains(piece(r, k, e)),
    decreases k - at,
{
    let inside = r.inside@;
    lemma_line_end_at(inside, at);
    if !inside[at] {
        lemma_pieces_of_line(r, at + 1, k, e);
    } else {
        let end = line_end(inside, at);
        if at == k {
            if end < e {
                assert(inside[end]);
            }
            if e < end {
                assert(inside[e]);
            }
            assert(ruling_pieces(r, at)[0] == piece(r, k, e));
        } else {
            if k <= end - 1 {
                assert(inside[k - 1]);
            }
            assert(end <= k);
            if end == at {
                assert(false);
            }
            if end < inside.len() {
                lemma_pieces_of_line(r, end, k, e);
                let rest = ruling_pieces(r, end);
                let all = ruling_pieces(r, at);
                let i = choose|i: int| 0 <= i < rest.len() && rest[i] == piece(r, k, e);
                assert(all[all.len() - rest.len() + i] == rest[i]);
            }
        }
    }
}

proof fn lemma_every_piece(r: RulingProbe, at: int, c: CurveView)
    requires
        ruling_measured(r),
        0 <= at <= r.inside@.len(),
        at > 0 ==> !r.inside@[at - 1] || at == r.inside@.len() || !r.inside@[at],
        ruling_pieces(r, at).contains(c),
    ensures
        exists|k: int, e: int| #[trigger]
            is_run(r.inside@, k, e) && hair().below(r.spans@[k]@[e - 1]) && c == piece(r, k, e),
    decreases r.inside@.len() - at,
{
    let inside = r.inside@;
    lemma_line_end_at(inside, at);
    let all = ruling_pieces(r, at);
    let i = choose|i: int| 0 <= i < all.len() && all[i] == c;
    if at < inside.len() {
        if !inside[at] {
            lemma_every_piece(r, at + 1, c);
        } else {
            let end = line_end(inside, at);
            if end <= at {
                assert(!inside[at]);
            }
            let rest = ruling_pieces(r, end);
            assert(is_run(inside, at, end));
            if hair().below(r.spans@[at]@[end - 1]) {
                if i == 0 {
                    assert(c == piece(r, at, end));
                } else {
                    assert(rest[i - 1] == c);
                    lemma_every_piece(r, end, c);
                }
            } else {
                assert(rest[i] == c);
                lemma_every_piece(r, end, c);
            }
        }
    }
}

/// A line along a cylinder is cut into just the runs of inside samples that are
/// longer than 1e-9, each from its first sample to its last.
pub proof fn law_rulings_are_cut_into_runs(r: RulingProbe, c: CurveView)
    requires
        ruling_measured(r),
    ensures
        ruling_pieces(r, 0).contains(c) <==> exists|k: int, e: int| #[trigger]
            is_run(r.inside@, k, e) && hair().below(r.spans@[k]@[e - 1]) && c == piece(r, k, e),
{
    if ruling_pieces(r, 0).contains(c) {
        lemma_every_piece(r, 0, c);
    }
    if exists|k: int, e: int| #[trigger]
        is_run(r.inside@, k, e) && hair().below(r.spans@[k]@[e - 1]) && c == piece(r, k, e) {
        let (k, e) = choose|k: int, e: int| #[trigger]
            is_run(r.inside@, k, e) && hair().below(r.spans@[k]@[e - 1]) && c == piece(r, k, e);
        lemma_pieces_of_line(r, 0, k, e);
    }
}

// ── A line and a polygon ────────────────────────────────────────────────────

/// Whether a line crosses an edge: they are not parallel (1e-12), and the
/// crossing is on the edge, to 1e-9 of its length.
pub open spec fn crosses_edge(c: EdgeCrossing) -> bool {
    &&& !c.det.unsigned().below(speck())
    &&& (Real { bits: 0xbe112e0be826d695 }).at_most(c.across)
    &&& c.across.at_most(Real { bits: 0x3ff000000044b830 })
}

proof fn lemma_hit(crossings: Seq<EdgeCrossing>, k: int, x: usize)
    requires
        0 <= k <= crossings.len() <= usize::MAX,
    ensures
        edges_hit(crossings, k).contains(x) <==> x < k && crosses_edge(crossings[x as int]),
        all_below(edges_hit(crossings, k), k),
        ascending(edges_hit(crossings, k)),
    decreases k,
{
    if k > 0 {
        lemma_hit(crossings, k - 1, x);
        let was = edges_hit(crossings, k - 1);
        let now = edges_hit(crossings, k);
        if was.contains(x) {
            let i = choose|i: int| 0 <= i < was.len() && was[i] == x;
            assert(now[i] == x);
        }
        if now.contains(x) {
            let i = choose|i: int| 0 <= i < now.len() && now[i] == x;
            if i < was.len() {
                assert(was[i] == x);
            }
        }
        if x == k - 1 && crosses_edge(crossings[x as int]) {
            assert(now.last() == x);
        }
    }
}

/// Whether a number is too near to one that is kept, or kept itself.
pub open spec fn accounted_for(
    table: Seq<Vec<Real>>,
    rule: Apart,
    kept: Seq<usize>,
    x: usize,
) -> bool {
    exists|j: int|
        0 <= j < kept.len() && (#[trigger] kept[j] == x || !rule.allows(
            table[kept[j] as int]@[x as int],
        ))
}

proof fn lemma_none_lost(table: Seq<Vec<Real>>, rule: Apart, list: Seq<usize>, k: int, i: int)
    requires
        0 <= i < k <= list.len(),
    ensures
        accounted_for(table, rule, thinned(table, rule, list, k), list[i]),
    decreases k,
{
    let was = thinned(table, rule, list, k - 1);
    let now = thinned(table, rule, list, k);
    if i < k - 1 {
        lemma_none_lost(table, rule, list, k - 1, i);
        let j = choose|j: int|
            0 <= j < was.len() && (#[trigger] was[j] == list[i] || !rule.allows(
                table[was[j] as int]@[list[i] as int],
            ));
        assert(now[j] == was[j]);
    } else {
        assert(now[now.len() - 1] == now.last());
    }
}

proof fn lemma_kept_in_turn(
    table: Seq<Vec<Real>>,
    rule: Apart,
    list: Seq<usize>,
    k: int,
    places: Seq<Place>,
)
    requires
        0 <= k <= list.len(),
        in_order(places, list),
    ensures
        in_order(places, thinned(table, rule, list, k)),
        forall|a: int|
            0 <= a < thinned(table, rule, list, k).len() ==> list.take(k).contains(
                #[trigger] thinned(table, rule, list, k)[a],
            ),
    decreases k,
{
    if k > 0 {
        lemma_kept_in_turn(table, rule, list, k - 1, places);
        let was = thinned(table, rule, list, k - 1);
        let now = thinned(table, rule, list, k);
        assert forall|a: int| 0 <= a < now.len() implies list.take(k).contains(
            #[trigger] now[a],
        ) by {
            if a < was.len() {
                assert(list.take(k - 1).contains(was[a]));
                let i = choose|i: int|
                    0 <= i < k - 1 && #[trigger] list.take(k - 1)[i] == was[a];
                assert(list.take(k)[i] == now[a]);
            } else {
                assert(list.take(k)[k - 1] == now[a]);
            }
        }
        assert forall|a: int, b: int| 0 <= a < b < now.len() implies crate::polyline::comes_first(
            places,
            #[trigger] now[a],
            #[trigger] now[b],
        ) by {
            if b < was.len() {
                assert(now[a] == was[a] && now[b] == was[b]);
            } else {
                assert(list.take(k - 1).contains(was[a]));
                let i = choose|i: int|
                    0 <= i < k - 1 && #[trigger] list.take(k - 1)[i] == was[a];
                assert(list[i] == now[a] && list[k - 1] == now[b]);
            }
        }
    }
}

/// The crossings of a line with a polygon that are taken cross their edges and go
/// forward along the line, no two neighbours on one spot (1e-9); each crossing
/// that is not taken is on the spot of one that is.
pub proof fn law_crossings_go_forward(
    crossings: Seq<EdgeCrossing>,
    apart: Seq<Vec<Real>>,
    i: int,
)
    requires
        crossings.len() <= usize::MAX,
        forall|k: int|
            0 <= k < crossings.len() && crosses_edge(#[trigger] crossings[k])
                ==> !crossings[k].along.nan(),
        0 <= i < crossings_in_order(crossings, apart).len(),
    ensures
        ({
            let list = crossings_in_order(crossings, apart);
            &&& list[i] < crossings.len()
            &&& crosses_edge(crossings[list[i] as int])
            &&& i > 0 ==> !apart[list[i - 1] as int]@[list[i] as int].below(hair())
            &&& i > 0 ==> crossings[list[i - 1] as int].along.at_most(
                crossings[list[i] as int].along,
            )
            &&& forall|x: usize|
                x < crossings.len() && crosses_edge(#[trigger] crossings[x as int])
                    ==> accounted_for(apart, Apart::NotBelow(hair()), list, x)
        }),
{
    let n = crossings.len() as int;
    let places = crate::intersect::crossing_places(crossings);
    let hit = edges_hit(crossings, n);
    let sorted = ordered(places, hit);
    let list = crossings_in_order(crossings, apart);
    lemma_hit(crossings, n, 0);
    assert(placed(places, hit)) by {
        assert forall|k: int| 0 <= k < hit.len() implies (#[trigger] hit[k]) < places.len()
            && !places[hit[k] as int].along.nan() by {
            lemma_hit(crossings, n, hit[k]);
            assert(hit.contains(hit[k]));
            assert(crosses_edge(crossings[hit[k] as int]));
        }
    }
    lemma_ordered_is_there(places, hit);
    law_thinned_is_spaced(
        apart,
        Apart::NotBelow(Real { bits: crate::ssi::SPAN_GAP }),
        sorted,
        sorted.len() as int,
        i,
    );
    assert(sorted.contains(list[i]));
    assert(hit.contains(list[i]));
    lemma_hit(crossings, n, list[i]);
    let rule = Apart::NotBelow(hair());
    lemma_kept_in_turn(apart, rule, sorted, sorted.len() as int, places);
    if i > 0 {
        assert(sorted.take(sorted.len() as int) =~= sorted);
        assert(sorted.contains(list[i - 1]));
        assert(hit.contains(list[i - 1]));
        lemma_hit(crossings, n, list[i - 1]);
        assert(crate::polyline::comes_first(places, list[i - 1], list[i]));
    }
    assert forall|x: usize|
        x < crossings.len() && crosses_edge(#[trigger] crossings[x as int]) implies accounted_for(
        apart,
        rule,
        list,
        x,
    ) by {
        lemma_hit(crossings, n, x);
        assert(hit.contains(x));
        assert(sorted.contains(x));
        let j = choose|j: int| 0 <= j < sorted.len() && sorted[j] == x;
        lemma_none_lost(apart, rule, sorted, sorted.len() as int, j);
    }
}

/// Whether a pair is of neighbours in a list, with an inside middle.
pub open spec fn is_inside_pair(
    list: Seq<usize>,
    inside: Seq<Vec<bool>>,
    i: int,
    pair: (usize, usize),
) -> bool {
    pair.0 == list[i] && pair.1 == list[i + 1] && inside[pair.0 as int]@[pair.1 as int]
}

proof fn lemma_pairs(list: Seq<usize>, inside: Seq<Vec<bool>>, k: int, pair: (usize, usize))
    requires
        0 <= k < list.len(),
    ensures
        inside_pairs(list, inside, k).contains(pair) <==> exists|i: int|
            0 <= i < k && #[trigger] is_inside_pair(list, inside, i, pair),
    decreases k,
{
    if k > 0 {
        lemma_pairs(list, inside, k - 1, pair);
        let was = inside_pairs(list, inside, k - 1);
        let now = inside_pairs(list, inside, k);
        if was.contains(pair) {
            let m = choose|m: int| 0 <= m < was.len() && was[m] == pair;
            assert(now[m] == pair);
        }
        if now.contains(pair) {
            let m = choose|m: int| 0 <= m < now.len() && now[m] == pair;
            if m < was.len() {
                assert(was[m] == pair);
            } else {
                assert(is_inside_pair(list, inside, k - 1, pair));
            }
        }
        if exists|i: int| 0 <= i < k && #[trigger] is_inside_pair(list, inside, i, pair) {
            let i = choose|i: int| 0 <= i < k && #[trigger] is_inside_pair(list, inside, i, pair);
            if i == k - 1 {
                assert(now.last() == pair);
            }
        }
    }
}

/// The stretches of a line inside a polygon are just those between neighbouring
/// crossings whose middle is inside.
pub proof fn law_inside_stretches(list: Seq<usize>, inside: Seq<Vec<bool>>, pair: (usize, usize))
    requires
        list.len() > 0,
    ensures
        inside_pairs(list, inside, list.len() - 1).contains(pair) <==> exists|i: int|
            0 <= i < list.len() - 1 && #[trigger] is_inside_pair(list, inside, i, pair),
{
    lemma_pairs(list, inside, list.len() - 1, pair);
}

// ── Clipped loops ───────────────────────────────────────────────────────────

/// The sample `m` steps after sample `p` of a loop.
pub open spec fn onward(n: int, p: int, m: int) -> int {
    if p + m < n {
        p + m
    } else {
        p + m - n
    }
}

/// Whether `m` samples of a loop, from sample `p` on, are a run: all inside, and
/// neither the one before nor the one after is.
pub open spec fn is_loop_run(inside: Seq<bool>, p: int, m: int) -> bool {
    let n = inside.len() as int;
    &&& 0 <= p < n
    &&& 0 < m < n
    &&& !inside[if p == 0 {
        n - 1
    } else {
        p - 1
    }]
    &&& !inside[onward(n, p, m)]
    &&& forall|i: int| 0 <= i < m ==> inside[#[trigger] onward(n, p, i)]
}

/// The curve of a run: its samples, with where the loop comes in before them and
/// where it leaves after them, as far as these are known.
pub open spec fn run_curve(
    points: Seq<Point3>,
    ends: Seq<Option<Point3>>,
    p: int,
    m: int,
) -> Seq<Point3> {
    let n = points.len() as int;
    let enter = ends[p];
    let leave = ends[onward(n, p, m)];
    (if enter is Some {
        seq![enter->0]
    } else {
        seq![]
    }) + Seq::new(m as nat, |i: int| points[onward(n, p, i)]) + (if leave is Some {
        seq![leave->0]
    } else {
        seq![]
    })
}

proof fn lemma_run_end_at(inside: Seq<bool>, start: int, k: int)
    requires
        0 <= k <= inside.len(),
        0 <= start < inside.len(),
    ensures
        k <= run_end(inside, start, k) <= inside.len(),
        run_end(inside, start, k) < inside.len() ==> !inside[turned(
            inside.len() as int,
            start,
            run_end(inside, start, k),
        )],
        forall|j: int|
            k <= j < run_end(inside, start, k) ==> inside[#[trigger] turned(
                inside.len() as int,
                start,
                j,
            )],
    decreases inside.len() - k,
{
    if k < inside.len() && inside[turned(inside.len() as int, start, k)] {
        lemma_run_end_at(inside, start, k + 1);
    }
}

proof fn lemma_run_found(
    points: Seq<Point3>,
    inside: Seq<bool>,
    ends: Seq<Option<Point3>>,
    start: int,
    at: int,
    k: int,
    e: int,
)
    requires
        inside.len() == points.len(),
        ends.len() == points.len(),
        0 <= start < inside.len(),
        0 <= at <= k < e <= inside.len(),
        comes_in(inside, start),
        k > 0 ==> !inside[turned(inside.len() as int, start, k - 1)],
        e < inside.len() ==> !inside[turned(inside.len() as int, start, e)],
        forall|j: int| k <= j < e ==> inside[#[trigger] turned(inside.len() as int, start, j)],
        arc(points, ends, start, k, e).points.len() >= 2,
    ensures
        arcs_from(points, inside, ends, start, at).contains(arc(points, ends, start, k, e)),
    decreases k - at,
{
    let n = inside.len() as int;
    let all = arcs_from(points, inside, ends, start, at);
    let goal = arc(points, ends, start, k, e);
    lemma_run_end_at(inside, start, at);
    if !inside[turned(n, start, at)] {
        assert(at < k) by {
            if at == k {
                assert(inside[turned(n, start, k)]);
            }
        }
        lemma_run_found(points, inside, ends, start, at + 1, k, e);
    } else {
        let end = run_end(inside, start, at);
        if end <= at {
            assert(!inside[turned(n, start, at)]);
        }
        if at == k {
            if end < e {
                assert(inside[turned(n, start, end)]);
            }
            if e < end {
                assert(inside[turned(n, start, e)]);
            }
            assert(all[0] == goal);
        } else {
            if k < end {
                assert(inside[turned(n, start, k - 1)]);
            }
            lemma_run_found(points, inside, ends, start, end, k, e);
            let rest = arcs_from(points, inside, ends, start, end);
            let i = choose|i: int| 0 <= i < rest.len() && rest[i] == goal;
            assert(all[all.len() - rest.len() + i] == goal);
        }
    }
}

proof fn lemma_entry_found(inside: Seq<bool>, i: int, p: int)
    requires
        0 <= i <= p < inside.len(),
        comes_in(inside, p),
    ensures
        i <= first_entry(inside, i) <= p,
        comes_in(inside, first_entry(inside, i)),
    decreases p - i,
{
    if !comes_in(inside, i) {
        lemma_entry_found(inside, i + 1, p);
    }
}

/// A loop that is inside all the way is kept whole. Otherwise each run of inside
/// samples, wherever on the loop it starts, is kept as an open curve, with where
/// the loop comes in and where it leaves, unless it is a single point.
pub proof fn law_loops_are_cut_into_runs(
    points: Seq<Point3>,
    inside: Seq<bool>,
    ends: Seq<Option<Point3>>,
    p: int,
    m: int,
)
    requires
        inside.len() == points.len(),
        ends.len() == points.len(),
    ensures
        (forall|i: int| 0 <= i < inside.len() ==> #[trigger] inside[i]) ==> clipped(
            points,
            inside,
            ends,
        ) == seq![CurveView { points, closed: true }],
        is_loop_run(inside, p, m) && run_curve(points, ends, p, m).len() >= 2 ==> clipped(
            points,
            inside,
            ends,
        ).contains(CurveView { points: run_curve(points, ends, p, m), closed: false }),
{
    if is_loop_run(inside, p, m) && run_curve(points, ends, p, m).len() >= 2 {
        let n = inside.len() as int;
        assert(inside[onward(n, p, 0)]);
        assert(comes_in(inside, p));
        lemma_entry_found(inside, 0, p);
        let start = first_entry(inside, 0);
        let k = if p >= start {
            p - start
        } else {
            p - start + n
        };
        assert(turned(n, start, k) == p);
        let e = k + m;
        assert(e <= n) by {
            if e > n {
                // The run would go past the start, before which the loop is outside.
                let j = n - 1 - k;
                assert(0 <= j < m);
                assert(inside[onward(n, p, j)]);
                assert(onward(n, p, j) == if start == 0 {
                    n - 1
                } else {
                    start - 1
                });
            }
        }
        assert forall|j: int| k <= j < e implies inside[#[trigger] turned(n, start, j)] by {
            assert(turned(n, start, j) == onward(n, p, j - k));
            assert(inside[onward(n, p, j - k)]);
        }
        if k > 0 {
            assert(turned(n, start, k - 1) == if p == 0 {
                n - 1
            } else {
                p - 1
            });
        }
        if e < n {
            assert(turned(n, start, e) == onward(n, p, m));
        }
        assert(turned(n, start, e) == onward(n, p, m));
        let one = arc(points, ends, start, k, e);
        assert(stretch(points, start, k, e) =~= Seq::new(
            m as nat,
            |i: int| points[onward(n, p, i)],
        ));
        assert(one.points =~= run_curve(points, ends, p, m));
        lemma_run_found(points, inside, ends, start, 0, k, e);
    }
}

// ── Planes, cylinders and tori ──────────────────────────────────────────────

/// A plane is across a cylinder unless the cosine between its normal and the axis
/// is below 1e-9; along it, it meets the cylinder in two lines, in one or in none
/// as the square of half the chord is positive, nothing or negative.
pub proof fn law_planes_and_cylinders(cos: Real, half2: Real)
    requires
        !half2.nan(),
    ensures
        lies_to(cos, half2) is Across <==> !cos.unsigned().below(hair()),
        cos.unsigned().below(hair()) ==> {
            &&& lies_to(cos, half2) is Through <==> (Real { bits: 0 }).below(half2)
            &&& lies_to(cos, half2) is Apart <==> half2.below(Real { bits: 0 })
            &&& lies_to(cos, half2) is Touching <==> half2.rank() == 0
        },
{
}

/// A plane and a cylinder meet in a loop that is clipped where it is over the
/// plane's region and between the cylinder's ends (from -1e-9), or in the pieces
/// of their lines, line after line.
pub proof fn law_conics_are_clipped(c: ConicProbe)
    ensures
        c is Missed ==> conic_curves(c).len() == 0,
        c matches ConicProbe::Round { samples, top } ==> conic_curves(c) == clipped(
            Seq::new(samples@.len(), |i: int| samples@[i].point),
            Seq::new(
                samples@.len(),
                |i: int|
                    samples@[i].over && (Real { bits: 0xbe112e0be826d695 }).at_most(
                        samples@[i].along,
                    ) && samples@[i].along.at_most(top),
            ),
            Seq::new(samples@.len(), |i: int| Option::<Point3>::None),
        ),
        c matches ConicProbe::Rulings(lines) ==> (lines@.len() == 2 ==> conic_curves(c)
            == ruling_pieces(lines@[0], 0) + ruling_pieces(lines@[1], 0)) && (lines@.len() == 1
            ==> conic_curves(c) == ruling_pieces(lines@[0], 0)) && (lines@.len() == 0
            ==> conic_curves(c).len() == 0),
{
    match c {
        ConicProbe::Round { samples, top } => {
            assert(sample_flags(samples@, top) =~= Seq::new(
                samples@.len(),
                |i: int|
                    samples@[i].over && (Real { bits: 0xbe112e0be826d695 }).at_most(
                        samples@[i].along,
                    ) && samples@[i].along.at_most(top),
            ));
            assert(no_ends(samples@.len() as int) =~= Seq::new(
                samples@.len(),
                |i: int| Option::<Point3>::None,
            ));
            assert(sample_points(samples@) =~= Seq::new(
                samples@.len(),
                |i: int| samples@[i].point,
            ));
        },
        ConicProbe::Rulings(lines) => {
            reveal_with_fuel(rulings_pieces, 3);
            if lines@.len() == 2 {
                assert(rulings_pieces(lines@, 2) =~= ruling_pieces(lines@[0], 0) + ruling_pieces(
                    lines@[1],
                    0,
                ));
            } else if lines@.len() == 1 {
                assert(rulings_pieces(lines@, 1) =~= ruling_pieces(lines@[0], 0));
            }
        },
        ConicProbe::Missed => {},
    }
}

proof fn lemma_filter_push<A>(s: Seq<A>, a: A, f: spec_fn(A) -> bool)
    ensures
        s.push(a).filter(f) == (if f(a) {
            s.filter(f).push(a)
        } else {
            s.filter(f)
        }),
{
    reveal(Seq::filter);
    assert(s.push(a).drop_last() =~= s);
}

proof fn lemma_lines(lines: Seq<LinePair>, k: int)
    requires
        0 <= k <= lines.len(),
    ensures
        ({
            let there = lines.take(k).filter(|l: LinePair| hair().below(l.gap));
            &&& line_parts(lines, k).len() == there.len()
            &&& forall|i: int|
                0 <= i < there.len() ==> is_common(
                    #[trigger] line_parts(lines, k)[i],
                    there[i].first,
                    there[i].second,
                )
        }),
    decreases k,
{
    if k > 0 {
        lemma_lines(lines, k - 1);
        assert(lines.take(k) =~= lines.take(k - 1).push(lines[k - 1]));
        lemma_filter_push(lines.take(k - 1), lines[k - 1], |l: LinePair| hair().below(l.gap));
        let was = line_parts(lines, k - 1);
        let now = line_parts(lines, k);
        let there = lines.take(k).filter(|l: LinePair| hair().below(l.gap));
        assert forall|i: int| 0 <= i < there.len() implies is_common(
            #[trigger] now[i],
            there[i].first,
            there[i].second,
        ) by {
            if i < was.len() {
                assert(now[i] == was[i]);
            }
        }
    } else {
        reveal(Seq::filter);
        assert(lines.take(0) =~= Seq::empty());
    }
}

proof fn lemma_loops(loops: Seq<Vec<Point3>>, k: int)
    requires
        0 <= k <= loops.len(),
    ensures
        ({
            let there = loops.take(k).filter(|l: Vec<Point3>| l@.len() >= 3);
            &&& full_loops(loops, k).len() == there.len()
            &&& forall|i: int|
                0 <= i < there.len() ==> (#[trigger] full_loops(loops, k)[i]).closed && full_loops(
                    loops,
                    k,
                )[i].points == there[i]@
        }),
    decreases k,
{
    if k > 0 {
        lemma_loops(loops, k - 1);
        assert(loops.take(k) =~= loops.take(k - 1).push(loops[k - 1]));
        lemma_filter_push(loops.take(k - 1), loops[k - 1], |l: Vec<Point3>| l@.len() >= 3);
        let was = full_loops(loops, k - 1);
        let now = full_loops(loops, k);
        let there = loops.take(k).filter(|l: Vec<Point3>| l@.len() >= 3);
        assert forall|i: int| 0 <= i < there.len() implies (#[trigger] now[i]).closed
            && now[i].points == there[i]@ by {
            if i < was.len() {
                assert(now[i] == was[i]);
            }
        }
    } else {
        reveal(Seq::filter);
        assert(loops.take(0) =~= Seq::empty());
    }
}

/// Two cylinders whose axes are parallel (the cosine is above 1 - 1e-7) meet in
/// the common parts of their lines that are longer than 1e-9; others in the
/// traced loops of three or more points, which are closed.
pub proof fn law_cylinders_meet(c: CylindersProbe)
    ensures
        ({
            let parallel = (Real { bits: 0x3fefffffca501acb }).below(c.alignment);
            let lines = c.lines@.filter(|l: LinePair| hair().below(l.gap));
            let loops = c.loops@.filter(|l: Vec<Point3>| l@.len() >= 3);
            &&& parallel ==> cylinders_curves(c).len() == lines.len() && forall|i: int|
                0 <= i < lines.len() ==> is_common(
                    #[trigger] cylinders_curves(c)[i],
                    lines[i].first,
                    lines[i].second,
                )
            &&& !parallel ==> cylinders_curves(c).len() == loops.len() && forall|i: int|
                0 <= i < loops.len() ==> (#[trigger] cylinders_curves(c)[i]).closed
                    && cylinders_curves(c)[i].points == loops[i]@
        }),
{
    lemma_lines(c.lines@, c.lines@.len() as int);
    lemma_loops(c.loops@, c.loops@.len() as int);
    assert(c.lines@.take(c.lines@.len() as int) =~= c.lines@);
    assert(c.loops@.take(c.loops@.len() as int) =~= c.loops@);
}

/// A loop is traced from a sample that is no further off than it may be, and over
/// the region if that is asked; a rough loop is traced if it has three samples.
pub proof fn law_seeds_are_traced(distance: Real, limit: Real, over: bool, samples: usize)
    ensures
        limit.below(distance) ==> !worth_tracing(SeedMark::Near { distance, limit })
            && !worth_tracing(SeedMark::Over { distance, limit, over }),
        distance.at_most(limit) ==> worth_tracing(SeedMark::Near { distance, limit })
            && worth_tracing(SeedMark::Over { distance, limit, over }) == over,
        worth_tracing(SeedMark::Rough { samples }) <==> samples > 2,
{
}

/// Traced loops are the same if their centres are nearer than the limit and, but
/// for a torus and a cylinder, their radii are too.
pub proof fn law_loops_alike(p: LoopsProbe, i: int, j: int)
    ensures
        ({
            let like = p.alike@[i]@[j];
            let near = like.centres.below(p.limit);
            let equal = like.radii.below(p.limit);
            &&& same_loop(p, LoopKind::TorusCylinder, i, j) == near
            &&& same_loop(p, LoopKind::Tori, i, j) == (near && equal)
            &&& same_loop(p, LoopKind::PlaneTorus, i, j) == (near && equal)
        }),
{
}

/// The curves of one loop: the loop itself between a torus and a cylinder, its
/// runs of samples between two tori, and its runs with their crossing points
/// between a plane and a torus.
pub open spec fn curves_of(trace: LoopTrace, kind: LoopKind) -> Seq<CurveView> {
    if kind is TorusCylinder {
        seq![CurveView { points: trace.points@, closed: true }]
    } else if kind is Tori {
        clipped(
            trace.points@,
            trace.inside@,
            Seq::new(trace.points@.len(), |i: int| Option::<Point3>::None),
        )
    } else {
        clipped(trace.points@, trace.inside@, trace.ends@)
    }
}

proof fn lemma_traced(p: LoopsProbe, kind: LoopKind, list: Seq<usize>, k: int)
    requires
        0 <= k <= list.len(),
    ensures
        traced_curves(p, kind, list, k) == list.take(k).map_values(
            |i: usize| curves_of(p.traces@[i as int], kind),
        ).flatten(),
    decreases k,
{
    let f = |i: usize| curves_of(p.traces@[i as int], kind);
    if k > 0 {
        lemma_traced(p, kind, list, k - 1);
        let trace = p.traces@[list[k - 1] as int];
        assert(no_ends(trace.points@.len() as int) =~= Seq::new(
            trace.points@.len(),
            |i: int| Option::<Point3>::None,
        ));
        assert(loop_curves(trace, kind) == curves_of(trace, kind));
        let was = list.take(k - 1).map_values(f);
        let now = list.take(k).map_values(f);
        assert(now =~= was.push(curves_of(trace, kind)));
        assert(now.drop_last() =~= was);
        now.lemma_flatten_and_flatten_alt_are_equivalent();
        was.lemma_flatten_and_flatten_alt_are_equivalent();
    } else {
        assert(list.take(0).map_values(f) =~= Seq::<Seq<CurveView>>::empty());
    }
}

/// The curves of traced loops are those of each loop that is taken, in turn.
pub proof fn law_taken_loops_give_the_curves(p: LoopsProbe, kind: LoopKind)
    ensures
        loops_curves(p, kind) == taken(p, kind, p.traces@.len() as int).map_values(
            |i: usize| curves_of(p.traces@[i as int], kind),
        ).flatten(),
{
    let list = taken(p, kind, p.traces@.len() as int);
    lemma_traced(p, kind, list, list.len() as int);
    assert(list.take(list.len() as int) =~= list);
}

// ── Faces ───────────────────────────────────────────────────────────────────

/// Pairs are intersected either way round alike: which surface comes first turns
/// the pair round and nothing else. A pair is passed over just if it has a sphere,
/// or is a plane and a torus that were not asked for.
pub proof fn law_pairs_are_symmetric(a: FaceGeom, b: FaceGeom, opts: SsiOptions)
    ensures
        ({
            let one = surface_pair(a, b, opts);
            let other = surface_pair(b, a, opts);
            &&& one is Planes <==> a is Plane && b is Plane
            &&& one is Cylinders <==> a is Cylinder && b is Cylinder
            &&& one is Tori <==> a is Torus && b is Torus
            &&& one is PlaneCylinder <==> other is CylinderPlane
            &&& one is TorusCylinder <==> other is CylinderTorus
            &&& one is PlaneTorus <==> other is TorusPlane
            &&& one is PlaneCylinder <==> a is Plane && b is Cylinder
            &&& one is TorusCylinder <==> a is Torus && b is Cylinder
            &&& one is PlaneTorus <==> a is Plane && b is Torus && opts.plane_torus
            &&& one is Passed <==> a is Sphere || b is Sphere || !opts.plane_torus && (a is Plane
                && b is Torus || a is Torus && b is Plane)
        }),
{
}

/// What two faces meet in goes by what was measured between them, and nothing
/// measured is nothing met; loops go by the surfaces.
pub proof fn law_pairs_go_by_their_probe(how: SurfacePair, probe: PairProbe)
    ensures
        probe is Nothing ==> pair_curves(how, probe).len() == 0,
        probe matches PairProbe::Planes(p) ==> pair_curves(how, probe) == planes_curves(p),
        probe matches PairProbe::Conic(c) ==> pair_curves(how, probe) == conic_curves(c),
        probe matches PairProbe::Cylinders(c) ==> pair_curves(how, probe) == cylinders_curves(c),
        probe matches PairProbe::Loops(p) ==> {
            &&& how is Tori ==> pair_curves(how, probe) == loops_curves(p, LoopKind::Tori)
            &&& how is PlaneTorus || how is TorusPlane ==> pair_curves(how, probe) == loops_curves(
                p,
                LoopKind::PlaneTorus,
            )
            &&& how is TorusCylinder || how is CylinderTorus ==> pair_curves(how, probe)
                == loops_curves(p, LoopKind::TorusCylinder)
        },
{
}

proof fn lemma_extremes(values: Seq<Real>, k: int, i: int)
    requires
        0 <= k <= values.len(),
    ensures
        !least(values, k).nan(),
        !greatest(values, k).nan(),
        0 <= i < k && !values[i].nan() ==> least(values, k).at_most(values[i])
            && values[i].at_most(greatest(values, k)),
    decreases k,
{
    if k > 0 {
        lemma_extremes(values, k - 1, i);
    }
}

/// A span holds every value, and is more than a point.
pub proof fn law_spans_hold_all(values: Seq<Real>, i: int)
    ensures
        span_of(values) matches Some((lo, hi)) ==> lo.below(hi) && (0 <= i < values.len()
            && !values[i].nan() ==> lo.at_most(values[i]) && values[i].at_most(hi)),
        0 <= i < values.len() && 0 <= values.len() && span_of(values) is None && !values[i].nan()
            ==> forall|j: int|
            0 <= j < values.len() && !(#[trigger] values[j]).nan() ==> values[j].rank()
                == values[i].rank(),
{
    let n = values.len() as int;
    lemma_extremes(values, n, i);
    if span_of(values) is None && 0 <= i < values.len() && !values[i].nan() {
        assert forall|j: int| 0 <= j < values.len() && !(#[trigger] values[j]).nan() implies values[
            j
        ].rank() == values[i].rank() by {
            lemma_extremes(values, n, j);
        }
    }
}

/// A tube covers its cylinder from the origin on, as far as it is long; any other
/// face on a cylinder covers what its loops span; a face on anything else covers
/// no band.
pub proof fn law_bands(face: Face, along: Seq<Real>)
    ensures
        face.geom matches FaceGeom::Cylinder(surf) ==> {
            &&& face.extent matches FaceExtent::Cylinder { length, start, end } ==> band(
                face,
                along,
            ) == Some(Band::Whole { surf, length })
            &&& !(face.extent is Cylinder) ==> (span_of(along) is None ==> band(face, along)
                is None) && (span_of(along) matches Some((lo, hi)) ==> band(face, along) == Some(
                Band::Between { surf, lo, hi },
            ))
        },
        !(face.geom is Cylinder) ==> band(face, along) is None,
{
}

/// A bend covers its torus all the way round if its end circles coincide (1e-6),
/// and from angle to angle otherwise; any other face on a torus covers what its
/// loops span; a face on anything else covers no arc.
pub proof fn law_bends(face: Face, probe: BendProbe)
    ensures
        face.geom matches FaceGeom::Torus(surf) ==> {
            let near = probe.gap.below(Real { bits: 0x3eb0c6f7a0b5ed8d });
            &&& face.extent is TorusFillet && near ==> bend(face, probe) == Some(
                (surf, Real { bits: 0 }, Real { bits: 0x401921fb54442d18 }),
            )
            &&& face.extent is TorusFillet && !near ==> bend(face, probe) == Some(
                (surf, probe.start, probe.end),
            )
            &&& !(face.extent is TorusFillet) && span_of(probe.angles@) is None ==> bend(
                face,
                probe,
            ) is None
            &&& !(face.extent is TorusFillet) && probe.angles@.len() > 0 ==> (span_of(
                probe.angles@,
            ) matches Some((lo, hi)) ==> bend(face, probe) == Some((surf, lo, hi)))
        },
        !(face.geom is Torus) ==> bend(face, probe) is None,
{
}

} // verus!
