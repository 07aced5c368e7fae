//! How section curves cross, are split where they do, and make loops.

use vstd::prelude::*;

use crate::geometry::Point3;
use crate::outline::{
    all_crossings, chain_closes, chained, comes_back, crossing, crossings_among, curve_crossings,
    cut_at, cuts_in, followed, hop_end, hop_points, hop_start, hops_points, later_crossings,
    loops_found, next_hop, node_point, open_arcs, open_pieces, pair_crossing, piece_points,
    pieces_of, point_nodes, presplit, row_crossings, run_on, segment_count, split_case,
    split_section, whole_loops, Cut, Hop, PairTable, Section, SectionCrossing, SectionView, SegMeet,
    SegPair, SplitCase, SplitSheet, SplitState,
};
use crate::polyline::Place;
use crate::scalar::Real;
use crate::ssi::{CurveView, SsiCurve};

verus! {

// ── Crossings ───────────────────────────────────────────────────────────────

/// Whether a place is on a segment, to 1e-9 of its length.
pub open spec fn within(t: Real) -> bool {
    (Real { bits: 0xbe112e0be826d695 }).at_most(t) && t.at_most(Real { bits: 0x3ff000000044b830 })
}

/// Whether a place is the one given, brought between the ends of its segment.
pub open spec fn brought_between(place: Real, t: Real) -> bool {
    let zero = Real { bits: 0 };
    let one = Real { bits: 0x3ff0000000000000 };
    &&& zero.at_most(place) && place.at_most(one)
    &&& zero.at_most(t) && t.at_most(one) ==> place == t
    &&& t.below(zero) ==> place == zero
    &&& one.below(t) ==> place == one
}

/// Two segments cross if they are not parallel (1e-14) and the crossing is on
/// both; it is taken between the ends of each.
pub proof fn law_segments_cross(m: SegMeet)
    ensures
        crossing(m) is Some <==> !m.den.unsigned().below(Real { bits: 0x3d06849b86a12b9b })
            && within(m.first) && within(m.second),
        crossing(m) matches Some(places) ==> brought_between(places.0, m.first) && brought_between(
            places.1,
            m.second,
        ),
{
}

/// Whether a crossing is that of segment `si` of one curve and `sj` of another.
pub open spec fn is_crossing(
    c: SectionCrossing,
    one: int,
    si: int,
    other: int,
    sj: int,
    pair: SegPair,
) -> bool {
    crossing(pair.meet) matches Some(places) && {
        &&& c.one == one && c.other == other
        &&& c.on_one.piece == si && c.on_one.along == places.0
        &&& c.on_other.piece == sj && c.on_other.along == places.1
        &&& c.point == pair.point
    }
}

/// Whether a crossing is of two segments of two curves, the first curve before
/// the second.
pub open spec fn found_at(
    pairs: Seq<Vec<PairTable>>,
    c: SectionCrossing,
    a: int,
    b: int,
    i: int,
    j: int,
) -> bool {
    &&& 0 <= a < b < pairs[a]@.len()
    &&& a < pairs.len()
    &&& 0 <= i < pairs[a]@[b]@.len()
    &&& 0 <= j < pairs[a]@[b]@[i]@.len()
    &&& is_crossing(c, a, i, b, j, pairs[a]@[b]@[i]@[j])
}

proof fn lemma_row_found(
    one: int,
    si: int,
    other: int,
    row: Seq<SegPair>,
    k: int,
    j: int,
)
    requires
        0 <= j < k <= row.len(),
        crossing(row[j].meet) is Some,
        0 <= one <= usize::MAX,
        0 <= other <= usize::MAX,
        0 <= si <= usize::MAX,
        row.len() <= usize::MAX,
    ensures
        exists|x: int|
            0 <= x < row_crossings(one, si, other, row, k).len() && is_crossing(
                #[trigger] row_crossings(one, si, other, row, k)[x],
                one,
                si,
                other,
                j,
                row[j],
            ),
    decreases k,
{
    let now = row_crossings(one, si, other, row, k);
    let was = row_crossings(one, si, other, row, k - 1);
    if j < k - 1 {
        lemma_row_found(one, si, other, row, k - 1, j);
        let x = choose|x: int|
            0 <= x < was.len() && is_crossing(#[trigger] was[x], one, si, other, j, row[j]);
        assert(now[x] == was[x]);
    } else {
        assert(is_crossing(now[was.len() as int], one, si, other, j, row[j]));
    }
}

proof fn lemma_table_found(
    one: int,
    other: int,
    table: Seq<Vec<SegPair>>,
    k: int,
    i: int,
    j: int,
)
    requires
        0 <= i < k <= table.len(),
        0 <= j < table[i]@.len(),
        crossing(table[i]@[j].meet) is Some,
        0 <= one <= usize::MAX,
        0 <= other <= usize::MAX,
        table.len() <= usize::MAX,
        forall|r: int| 0 <= r < table.len() ==> (#[trigger] table[r])@.len() <= usize::MAX,
    ensures
        exists|x: int|
            0 <= x < curve_crossings(one, other, table, k).len() && is_crossing(
                #[trigger] curve_crossings(one, other, table, k)[x],
                one,
                i,
                other,
                j,
                table[i]@[j],
            ),
    decreases k,
{
    let now = curve_crossings(one, other, table, k);
    let was = curve_crossings(one, other, table, k - 1);
    if i < k - 1 {
        lemma_table_found(one, other, table, k - 1, i, j);
        let x = choose|x: int|
            0 <= x < was.len() && is_crossing(#[trigger] was[x], one, i, other, j, table[i]@[j]);
        assert(now[x] == was[x]);
    } else {
        let row = table[i]@;
        assert(table[i]@.len() <= usize::MAX);
        lemma_row_found(one, i, other, row, row.len() as int, j);
        let more = row_crossings(one, i, other, row, row.len() as int);
        let x = choose|x: int|
            0 <= x < more.len() && is_crossing(#[trigger] more[x], one, i, other, j, row[j]);
        assert(now[was.len() + x] == more[x]);
    }
}

proof fn lemma_later_found(
    one: int,
    tables: Seq<PairTable>,
    k: int,
    b: int,
    i: int,
    j: int,
)
    requires
        0 <= one < b < k <= tables.len() <= usize::MAX,
        0 <= i < tables[b]@.len() <= usize::MAX,
        0 <= j < tables[b]@[i]@.len(),
        crossing(tables[b]@[i]@[j].meet) is Some,
        forall|r: int|
            0 <= r < tables[b]@.len() ==> (#[trigger] tables[b]@[r])@.len() <= usize::MAX,
    ensures
        exists|x: int|
            0 <= x < later_crossings(one, tables, k).len() && is_crossing(
                #[trigger] later_crossings(one, tables, k)[x],
                one,
                i,
                b,
                j,
                tables[b]@[i]@[j],
            ),
    decreases k,
{
    let now = later_crossings(one, tables, k);
    let was = later_crossings(one, tables, k - 1);
    let pair = tables[b]@[i]@[j];
    if b < k - 1 {
        lemma_later_found(one, tables, k - 1, b, i, j);
        let x = choose|x: int|
            0 <= x < was.len() && is_crossing(#[trigger] was[x], one, i, b, j, pair);
        assert(now[x] == was[x]);
    } else {
        let table = tables[b]@;
        lemma_table_found(one, b, table, table.len() as int, i, j);
        let more = curve_crossings(one, b, table, table.len() as int);
        let x = choose|x: int|
            0 <= x < more.len() && is_crossing(#[trigger] more[x], one, i, b, j, pair);
        assert(now[was.len() + x] == more[x]);
    }
}

proof fn lemma_found(
    pairs: Seq<Vec<PairTable>>,
    k: int,
    a: int,
    b: int,
    i: int,
    j: int,
)
    requires
        0 <= a < k <= pairs.len() <= usize::MAX,
        a < b < pairs[a]@.len() <= usize::MAX,
        0 <= i < pairs[a]@[b]@.len() <= usize::MAX,
        0 <= j < pairs[a]@[b]@[i]@.len(),
        crossing(pairs[a]@[b]@[i]@[j].meet) is Some,
        forall|r: int|
            0 <= r < pairs[a]@[b]@.len() ==> (#[trigger] pairs[a]@[b]@[r])@.len() <= usize::MAX,
    ensures
        exists|x: int|
            0 <= x < crossings_among(pairs, k).len() && is_crossing(
                #[trigger] crossings_among(pairs, k)[x],
                a,
                i,
                b,
                j,
                pairs[a]@[b]@[i]@[j],
            ),
    decreases k,
{
    let now = crossings_among(pairs, k);
    let was = crossings_among(pairs, k - 1);
    let pair = pairs[a]@[b]@[i]@[j];
    if a < k - 1 {
        lemma_found(pairs, k - 1, a, b, i, j);
        let x = choose|x: int|
            0 <= x < was.len() && is_crossing(#[trigger] was[x], a, i, b, j, pair);
        assert(now[x] == was[x]);
    } else {
        let tables = pairs[a]@;
        lemma_later_found(a, tables, tables.len() as int, b, i, j);
        let more = later_crossings(a, tables, tables.len() as int);
        let x = choose|x: int|
            0 <= x < more.len() && is_crossing(#[trigger] more[x], a, i, b, j, pair);
        assert(now[was.len() + x] == more[x]);
    }
}

/// Every crossing of segments of two different sections is found, with where it
/// is on either.
pub proof fn law_no_crossing_is_missed(
    pairs: Seq<Vec<PairTable>>,
    a: int,
    b: int,
    i: int,
    j: int,
)
    requires
        0 <= a < pairs.len() <= usize::MAX,
        a < b < pairs[a]@.len() <= usize::MAX,
        0 <= i < pairs[a]@[b]@.len() <= usize::MAX,
        0 <= j < pairs[a]@[b]@[i]@.len(),
        forall|r: int|
            0 <= r < pairs[a]@[b]@.len() ==> (#[trigger] pairs[a]@[b]@[r])@.len() <= usize::MAX,
        !pairs[a]@[b]@[i]@[j].meet.den.unsigned().below(Real { bits: 0x3d06849b86a12b9b }),
        within(pairs[a]@[b]@[i]@[j].meet.first),
        within(pairs[a]@[b]@[i]@[j].meet.second),
    ensures
        exists|x: int|
            0 <= x < all_crossings(pairs).len() && is_crossing(
                #[trigger] all_crossings(pairs)[x],
                a,
                i,
                b,
                j,
                pairs[a]@[b]@[i]@[j],
            ),
{
    let n = pairs.len() as int;
    let pair = pairs[a]@[b]@[i]@[j];
    lemma_found(pairs, n, a, b, i, j);
    let x = choose|x: int|
        0 <= x < crossings_among(pairs, n).len() && is_crossing(
            #[trigger] crossings_among(pairs, n)[x],
            a,
            i,
            b,
            j,
            pair,
        );
    assert(is_crossing(all_crossings(pairs)[x], a, i, b, j, pair));
}

proof fn lemma_row_is(one: int, si: int, other: int, row: Seq<SegPair>, k: int, x: int)
    requires
        0 <= k <= row.len() <= usize::MAX,
        0 <= one <= usize::MAX,
        0 <= other <= usize::MAX,
        0 <= si <= usize::MAX,
        0 <= x < row_crossings(one, si, other, row, k).len(),
    ensures
        exists|j: int|
            0 <= j < k && is_crossing(
                row_crossings(one, si, other, row, k)[x],
                one,
                si,
                other,
                j,
                #[trigger] row[j],
            ),
    decreases k,
{
    if k > 0 {
        let was = row_crossings(one, si, other, row, k - 1);
        let now = row_crossings(one, si, other, row, k);
        if x < was.len() {
            lemma_row_is(one, si, other, row, k - 1, x);
            assert(now[x] == was[x]);
        } else {
            assert(is_crossing(now[x], one, si, other, k - 1, row[k - 1]));
        }
    }
}

/// The crossings of a segment with a curve are crossings of it with a segment of
/// that curve.
pub proof fn law_crossings_are_crossings(
    one: int,
    si: int,
    other: int,
    row: Seq<SegPair>,
    x: int,
)
    requires
        row.len() <= usize::MAX,
        0 <= one <= usize::MAX,
        0 <= other <= usize::MAX,
        0 <= si <= usize::MAX,
        0 <= x < row_crossings(one, si, other, row, row.len() as int).len(),
    ensures
        exists|j: int|
            0 <= j < row.len() && is_crossing(
                row_crossings(one, si, other, row, row.len() as int)[x],
                one,
                si,
                other,
                j,
                #[trigger] row[j],
            ),
{
    lemma_row_is(one, si, other, row, row.len() as int, x);
}

/// A section has a segment between any two neighbouring points, and a closed one
/// another that leads back.
pub proof fn law_segments(section: Section)
    ensures
        section.curve.points@.len() < 2 ==> segment_count(section) == 0,
        section.curve.points@.len() >= 2 && !section.curve.closed ==> segment_count(section) + 1
            == section.curve.points@.len(),
        section.curve.points@.len() >= 2 && section.curve.closed ==> segment_count(section)
            == section.curve.points@.len(),
{
}

// ── Splitting ───────────────────────────────────────────────────────────────

/// At a cut the run under way ends there, unless it is there already (to the
/// tolerance), and the next run starts there. A run of one point is no piece.
pub proof fn law_cuts_end_a_run(case: SplitCase, s: SplitState, x: usize)
    requires
        s.run.len() > 0,
    ensures
        ({
            let t = cut_at(case, s, x);
            let far = case.tol2.below(case.squares[s.run.last() as int]@[x as int]);
            &&& t.run.len() == 1 && t.run[0] == x
            &&& t.next == s.next + 1
            &&& far ==> t.pieces.len() == s.pieces.len() + 1 && t.pieces.last().len()
                == s.run.len() + 1 && t.pieces.last().last() == x && forall|i: int|
                0 <= i < s.run.len() ==> #[trigger] t.pieces.last()[i] == s.run[i]
            &&& !far && s.run.len() >= 2 ==> t.pieces == s.pieces.push(s.run)
            &&& !far && s.run.len() == 1 ==> t.pieces == s.pieces
        }),
{
}

/// A run goes on to the next point of the curve, unless that is on the same spot
/// (a square of 1e-24).
pub proof fn law_runs_go_on(case: SplitCase, s: SplitState, x: int)
    requires
        s.run.len() > 0,
        0 <= x <= usize::MAX,
    ensures
        ({
            let t = run_on(case, s, x);
            let far = (Real { bits: 0x3af357c299a88ea7 }).below(
                case.squares[s.run.last() as int]@[x],
            );
            &&& t.pieces == s.pieces && t.next == s.next
            &&& far ==> t.run.len() == s.run.len() + 1 && t.run.last() == x && forall|i: int|
                0 <= i < s.run.len() ==> #[trigger] t.run[i] == s.run[i]
            &&& !far ==> t.run == s.run
        }),
{
}

/// Of a loop that is split, the last piece and the first are one: it goes on
/// where the last ends with what the first has after its start. An open curve
/// keeps its pieces.
pub proof fn law_split_loops_go_on(case: SplitCase)
    ensures
        ({
            let pieces = open_pieces(case);
            let all = pieces_of(case, true);
            let n = pieces.len() as int;
            &&& pieces_of(case, false) == pieces
            &&& n < 2 ==> all == pieces
            &&& n >= 2 && pieces[0].len() > 0 ==> {
                &&& all.len() == n - 1
                &&& forall|i: int| 0 <= i < n - 2 ==> #[trigger] all[i] == pieces[i + 1]
                &&& all.last().len() == pieces[n - 1].len() + pieces[0].len() - 1
                &&& forall|i: int|
                    0 <= i < pieces[n - 1].len() ==> #[trigger] all.last()[i] == pieces[n - 1][i]
                &&& forall|i: int|
                    1 <= i < pieces[0].len() ==> all.last()[pieces[n - 1].len() + i - 1]
                        == #[trigger] pieces[0][i]
            }
        }),
{
}

/// What becomes of a section keeps its face. A section without length vanishes,
/// one that nothing crosses stays whole, and any other becomes open pieces whose
/// points are points of it or of its cuts.
pub proof fn law_split_sections(
    section: Section,
    sheet: SplitSheet,
    cuts: Seq<Cut>,
    tol: Real,
    tol2: Real,
    i: int,
)
    ensures
        ({
            let out = split_section(section, sheet, cuts, tol, tol2);
            &&& section.curve.points@.len() < 2 ==> out.len() == 0
            &&& section.curve.points@.len() >= 2 && cuts.len() == 0 ==> out.len() == 1
                && out[0].owner == section.owner && out[0].curve.points == sheet.flat@
                && out[0].curve.closed == section.curve.closed
            &&& section.curve.points@.len() >= 2 && cuts.len() > 0 && 0 <= i < out.len() ==> {
                let piece = pieces_of(
                    split_case(sheet, section.curve.closed, cuts, tol, tol2),
                    section.curve.closed,
                )[i];
                &&& out[i].owner == section.owner
                &&& !out[i].curve.closed
                &&& out[i].curve.points.len() == piece.len()
                &&& forall|j: int|
                    0 <= j < piece.len() ==> #[trigger] out[i].curve.points[j] == node_point(
                        sheet.flat@,
                        section.curve.closed,
                        cuts,
                        piece[j] as int,
                    )
            }
        }),
{
}

/// The nodes of a curve are its points, its first again if it is closed, and its
/// cuts.
pub proof fn law_nodes(flat: Seq<Point3>, closed: bool, cuts: Seq<Cut>, x: int)
    ensures
        0 <= x < flat.len() ==> node_point(flat, closed, cuts, x) == flat[x],
        closed ==> node_point(flat, closed, cuts, flat.len() as int) == flat[0],
        closed && 0 <= x < cuts.len() ==> node_point(flat, closed, cuts, flat.len() + 1 + x)
            == cuts[x].point,
        !closed && 0 <= x < cuts.len() ==> node_point(flat, closed, cuts, flat.len() + x)
            == cuts[x].point,
{
}

/// Without crossings all sections stay as they are.
pub proof fn law_uncrossed_sections_stay(
    sections: Seq<Section>,
    sheets: Seq<SplitSheet>,
    tol: Real,
    tol2: Real,
    i: int,
)
    requires
        0 <= i < sections.len(),
    ensures
        ({
            let out = presplit(sections, sheets, Seq::empty(), tol, tol2);
            &&& out.len() == sections.len()
            &&& out[i].owner == sections[i].owner
            &&& out[i].curve.points == sections[i].curve.points@
            &&& out[i].curve.closed == sections[i].curve.closed
        }),
{
}

// ── Loops ───────────────────────────────────────────────────────────────────

/// A curve followed forward starts at its start and ends at its end; backward it
/// is the other way round, and its points are too.
pub proof fn law_hops(curves: Seq<SsiCurve>, arc: usize, i: int)
    requires
        arc < usize::MAX / 2,
        0 <= i < curves[arc as int].points@.len(),
    ensures
        ({
            let there = Hop { arc, back: false };
            let back = Hop { arc, back: true };
            let n = curves[arc as int].points@.len() as int;
            &&& hop_start(there) == 2 * arc && hop_end(there) == 2 * arc + 1
            &&& hop_start(back) == hop_end(there) && hop_end(back) == hop_start(there)
            &&& hop_points(curves, there)[i] == curves[arc as int].points@[i]
            &&& hop_points(curves, back)[i] == curves[arc as int].points@[n - 1 - i]
        }),
{
}

/// Whether a curve comes back to its start (to the tolerance) with three points
/// or more.
pub open spec fn is_round(curves: Seq<SsiCurve>, gaps: Seq<Vec<Real>>, tol: Real, c: int) -> bool {
    curves[c].points@.len() >= 3 && gaps[2 * c]@[2 * c + 1].at_most(tol)
}

/// A curve of fewer than two points is neither loop nor arc. Of the others, one
/// that comes back to its start is a loop without its last point, a closed one a
/// loop of all its points, and any other an open arc.
pub proof fn law_curves_are_loops_or_arcs(
    curves: Seq<SsiCurve>,
    gaps: Seq<Vec<Real>>,
    tol: Real,
    k: int,
    c: int,
)
    requires
        0 <= c < k <= curves.len() <= usize::MAX,
    ensures
        ({
            let loops = whole_loops(curves, gaps, tol, k);
            let arcs = open_arcs(curves, gaps, tol, k);
            let pts = curves[c].points@;
            let round = is_round(curves, gaps, tol, c);
            &&& arcs.contains(c as usize) <==> pts.len() >= 2 && !round && !curves[c].closed
            &&& pts.len() >= 2 && round ==> loops.contains(pts.take(pts.len() - 1))
            &&& pts.len() >= 2 && !round && curves[c].closed ==> loops.contains(pts)
        }),
    decreases k,
{
    let loops = whole_loops(curves, gaps, tol, k);
    let arcs = open_arcs(curves, gaps, tol, k);
    let was_loops = whole_loops(curves, gaps, tol, k - 1);
    let was_arcs = open_arcs(curves, gaps, tol, k - 1);
    let pts = curves[c].points@;
    assert(comes_back(curves, gaps, tol, c) == is_round(curves, gaps, tol, c));
    if c < k - 1 {
        law_curves_are_loops_or_arcs(curves, gaps, tol, k - 1, c);
        if was_arcs.contains(c as usize) {
            let i = choose|i: int| 0 <= i < was_arcs.len() && was_arcs[i] == c as usize;
            assert(arcs[i] == c as usize);
        }
        if arcs.contains(c as usize) {
            let i = choose|i: int| 0 <= i < arcs.len() && arcs[i] == c as usize;
            assert(i < was_arcs.len());
            assert(was_arcs[i] == c as usize);
        }
        lemma_kept_loop(was_loops, loops, pts.take(pts.len() - 1));
        lemma_kept_loop(was_loops, loops, pts);
    } else {
        lemma_arcs_below(curves, gaps, tol, k - 1);
        if arcs.contains(c as usize) {
            let i = choose|i: int| 0 <= i < arcs.len() && arcs[i] == c as usize;
            if i < was_arcs.len() {
                assert(was_arcs[i] < k - 1);
            }
        }
        if arcs.len() > was_arcs.len() {
            assert(arcs.last() == c as usize);
        }
        if loops.len() > was_loops.len() {
            assert(loops.contains(loops.last()));
            if pts.len() > 0 {
                assert(pts.drop_last() =~= pts.take(pts.len() - 1));
            }
        }
    }
}

proof fn lemma_kept_loop(was: Seq<Seq<Point3>>, now: Seq<Seq<Point3>>, x: Seq<Point3>)
    requires
        was.len() <= now.len(),
        forall|i: int| 0 <= i < was.len() ==> #[trigger] now[i] == was[i],
    ensures
        was.contains(x) ==> now.contains(x),
{
    if was.contains(x) {
        let i = choose|i: int| 0 <= i < was.len() && was[i] == x;
        assert(now[i] == x);
    }
}

proof fn lemma_arcs_below(curves: Seq<SsiCurve>, gaps: Seq<Vec<Real>>, tol: Real, k: int)
    requires
        0 <= k <= curves.len() <= usize::MAX,
    ensures
        forall|i: int|
            0 <= i < open_arcs(curves, gaps, tol, k).len() ==> (#[trigger] open_arcs(
                curves,
                gaps,
                tol,
                k,
            )[i]) < k,
    decreases k,
{
    if k > 0 {
        lemma_arcs_below(curves, gaps, tol, k - 1);
        let was = open_arcs(curves, gaps, tol, k - 1);
        let now = open_arcs(curves, gaps, tol, k);
        assert forall|i: int| 0 <= i < now.len() implies (#[trigger] now[i]) < k by {
            if i < was.len() {
                assert(was[i] < k - 1);
            }
        }
    }
}

/// The next arc of a chain is the first that is unused and has an end where the
/// chain ends (to the tolerance): followed forward if that is its start, and
/// backward if only its end is.
pub proof fn law_chains_go_on_where_they_end(
    arcs: Seq<usize>,
    gaps: Seq<Vec<Real>>,
    tol: Real,
    used: Seq<bool>,
    tail: int,
    p: int,
)
    requires
        0 <= p <= arcs.len(),
    ensures
        match next_hop(arcs, gaps, tol, used, tail, p) {
            None => forall|q: int|
                p <= q < arcs.len() && !used[q] ==> !gaps[tail]@[2 * (
                #[trigger] arcs[q]) as int].at_most(tol) && !gaps[tail]@[2 * arcs[q] + 1].at_most(
                    tol,
                ),
            Some((q, hop)) => {
                &&& p <= q < arcs.len()
                &&& !used[q]
                &&& hop.arc == arcs[q]
                &&& !hop.back ==> gaps[tail]@[2 * arcs[q] as int].at_most(tol)
                &&& hop.back ==> gaps[tail]@[2 * arcs[q] + 1].at_most(tol)
                    && !gaps[tail]@[2 * arcs[q] as int].at_most(tol)
                &&& forall|r: int|
                    p <= r < q && !used[r] ==> !gaps[tail]@[2 * (
                    #[trigger] arcs[r]) as int].at_most(tol) && !gaps[tail]@[2 * arcs[r]
                        + 1].at_most(tol)
            },
        },
    decreases arcs.len() - p,
{
    if p < arcs.len() {
        law_chains_go_on_where_they_end(arcs, gaps, tol, used, tail, p + 1);
    }
}

/// The points along a chain are those of its first arc and of each next one all
/// but its first.
pub proof fn law_chains_run_through_their_arcs(curves: Seq<SsiCurve>, hops: Seq<Hop>, k: int)
    requires
        0 < k < hops.len(),
        hop_points(curves, hops[k]).len() > 0,
    ensures
        hops_points(curves, hops, 1) == hop_points(curves, hops[0]),
        ({
            let before = hops_points(curves, hops, k);
            let now = hops_points(curves, hops, k + 1);
            let pts = hop_points(curves, hops[k]);
            &&& now.len() == before.len() + pts.len() - 1
            &&& forall|i: int| 0 <= i < before.len() ==> #[trigger] now[i] == before[i]
            &&& forall|i: int|
                1 <= i < pts.len() ==> now[before.len() + i - 1] == #[trigger] pts[i]
        }),
{
}

proof fn lemma_followed(
    curves: Seq<SsiCurve>,
    arcs: Seq<usize>,
    gaps: Seq<Vec<Real>>,
    tol: Real,
    used: Seq<bool>,
    hops: Seq<Hop>,
)
    requires
        hops.len() > 0,
    ensures
        followed(curves, arcs, gaps, tol, used, hops).1 matches Some(chain) ==> chain.len()
            >= hops.len() && chain[0] == hops[0] && gaps[hop_end(chain.last())]@[hop_start(
            chain[0],
        )].at_most(tol) && hops_points(curves, chain, chain.len() as int).len() >= 3,
    decreases arcs.len() - hops.len(),
{
    if !chain_closes(curves, gaps, tol, hops) && hops.len() < arcs.len() {
        match next_hop(arcs, gaps, tol, used, hop_end(hops.last()), 0) {
            Some((p, h)) => {
                lemma_followed(curves, arcs, gaps, tol, used.update(p, true), hops.push(h));
            },
            None => {},
        }
    }
}

proof fn lemma_chained(
    curves: Seq<SsiCurve>,
    arcs: Seq<usize>,
    gaps: Seq<Vec<Real>>,
    tol: Real,
    k: int,
    i: int,
)
    requires
        0 <= i < chained(curves, arcs, gaps, tol, k).chains.len(),
    ensures
        ({
            let chain = chained(curves, arcs, gaps, tol, k).chains[i];
            &&& chain.len() > 0
            &&& !chain[0].back
            &&& gaps[hop_end(chain.last())]@[hop_start(chain[0])].at_most(tol)
            &&& hops_points(curves, chain, chain.len() as int).len() >= 3
        }),
    decreases k,
{
    if k > 0 {
        let was = chained(curves, arcs, gaps, tol, k - 1);
        if i < was.chains.len() {
            lemma_chained(curves, arcs, gaps, tol, k - 1, i);
        } else {
            lemma_followed(
                curves,
                arcs,
                gaps,
                tol,
                was.used.update(k - 1, true),
                seq![Hop { arc: arcs[k - 1], back: false }],
            );
        }
    }
}

/// The loops of a section are its curves that are loops, in turn, and after them
/// closed chains of arcs: each starts forward, ends where it started (to the
/// tolerance), and has three points or more.
pub proof fn law_chains_of_a_section_close(
    curves: Seq<SsiCurve>,
    gaps: Seq<Vec<Real>>,
    tol: Real,
    i: int,
)
    ensures
        ({
            let n = curves.len() as int;
            let whole = whole_loops(curves, gaps, tol, n);
            let arcs = open_arcs(curves, gaps, tol, n);
            let chains = chained(curves, arcs, gaps, tol, arcs.len() as int).chains;
            let loops = loops_found(curves, gaps, tol);
            &&& loops.len() == whole.len() + chains.len()
            &&& 0 <= i < whole.len() ==> loops[i] == whole[i]
            &&& 0 <= i < chains.len() ==> {
                let chain = chains[i];
                &&& loops[whole.len() + i] == hops_points(curves, chain, chain.len() as int)
                &&& chain.len() > 0
                &&& !chain[0].back
                &&& gaps[hop_end(chain.last())]@[hop_start(chain[0])].at_most(tol)
                &&& loops[whole.len() + i].len() >= 3
            }
        }),
{
    let arcs = open_arcs(curves, gaps, tol, curves.len() as int);
    if 0 <= i < chained(curves, arcs, gaps, tol, arcs.len() as int).chains.len() {
        lemma_chained(curves, arcs, gaps, tol, arcs.len() as int, i);
    }
}

} // verus!
