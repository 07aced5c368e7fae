//! The section of a part by a plane: where its curves split the boundaries
//! they end on, and where the seam of a periodic face is put.

use vstd::prelude::*;

use crate::boundary::{
    count_up, counting, live_loop, pick_points, picked_points, point_gap, POINT_GAP,
};
use crate::brep::BRep;
use crate::geometry::Point3;
use crate::ids::FaceId;
use crate::polyline::{
    all_below, arrange_places, ascending, covers, law_singled_is_spread, lemma_ordered_is_there,
    lemma_thinned, ordered, placed, same_numbers, single_out, singled, thin, thinned, Apart, Place,
};
use crate::scalar::Real;
use crate::ssi::SsiCurve;

verus! {

/// 1e-24.
pub const NO_LENGTH: u64 = 0x3AF3_57C2_99A8_8EA7;

/// 1e-6.
pub const NEAR_START: u64 = 0x3EB0_C6F7_A0B5_ED8D;

/// 1 - 1e-6.
pub const NEAR_END: u64 = 0x3FEF_FFFD_E721_0BE9;

/// Half a turn.
pub const HALF_TURN: u64 = 0x4009_21FB_5444_2D18;

/// Nine tenths of a turn.
pub const MOST_OF_A_TURN: u64 = 0x4016_9E95_6570_8EFC;

/// One.
pub const ONE: u64 = 0x3FF0_0000_0000_0000;

// ── Joints ──────────────────────────────────────────────────────────────────

/// The ends of the open curves among the first `k`, curve by curve.
pub open spec fn open_ends(curves: Seq<SsiCurve>, k: int) -> Seq<Point3>
    decreases k,
{
    if k <= 0 {
        Seq::empty()
    } else {
        let c = curves[k - 1];
        if c.closed || c.points@.len() < 2 {
            open_ends(curves, k - 1)
        } else {
            open_ends(curves, k - 1) + seq![c.points@.first(), c.points@.last()]
        }
    }
}

/// The ends of the open curves, in order.
pub fn arc_ends(curves: &[SsiCurve]) -> (ends: Vec<Point3>)
    ensures
        ends@ == open_ends(curves@, curves@.len() as int),
{
    let mut ends: Vec<Point3> = Vec::new();
    let mut k: usize = 0;
    while k < curves.len()
        invariant
            k <= curves@.len(),
            ends@ == open_ends(curves@, k as int),
        decreases curves@.len() - k,
    {
        let ghost before = ends@;
        let c: &SsiCurve = &curves[k];
        let n: usize = c.points.len();
        if !c.closed && n >= 2 {
            ends.push(c.points[0]);
            ends.push(c.points[n - 1]);
            assert(ends@ =~= before + seq![c.points@.first(), c.points@.last()]);
        }
        k += 1;
    }
    ends
}

/// The points among several that are on spots of their own.
pub open spec fn spots(points: Seq<Point3>, apart: Seq<Vec<Real>>) -> Seq<Point3> {
    picked_points(points, singled(apart, point_gap(), points.len() as int))
}

/// The points where section curves start or end, each spot once.  `apart` holds
/// the distances between any two of the ends that `arc_ends` gives.
pub fn section_joints(curves: &[SsiCurve], apart: &Vec<Vec<Real>>) -> (joints: Vec<Point3>)
    requires
        covers(apart@, open_ends(curves@, curves@.len() as int).len() as int),
    ensures
        joints@ == spots(open_ends(curves@, curves@.len() as int), apart@),
{
    let ends = arc_ends(curves);
    distinct_spots(&ends, apart)
}

/// The points among several that are on spots of their own: joints followed by
/// the points where a seam crosses, for one.
pub fn distinct_spots(points: &[Point3], apart: &Vec<Vec<Real>>) -> (kept: Vec<Point3>)
    requires
        covers(apart@, points@.len() as int),
    ensures
        kept@ == spots(points@, apart@),
{
    let list = single_out(apart, Real { bits: POINT_GAP }, points.len());
    let n: usize = points.len();
    proof {
        law_singled_is_spread(apart@, point_gap(), n as int);
    }
    pick_points(points, &list)
}

/// Where a joint stands against a piece of a polyline.
#[derive(Clone, Copy, Debug, PartialEq, Eq, Structural)]
pub struct Foot {
    /// How far along the piece its foot is, 0 to 1.
    pub along: Real,
    /// How far it is from its foot.
    pub off: Real,
    /// How far it is from the start of the piece.
    pub from_start: Real,
}

/// A piece of a polyline against every joint.
#[derive(Clone, Debug)]
pub struct PieceProbe {
    /// Its length squared.
    pub length2: Real,
    /// How far off a joint may be.
    pub tol: Real,
    /// Where each joint stands.
    pub feet: Vec<Foot>,
}

/// Whether a joint belongs on a piece.
pub open spec fn foot_counts(foot: Foot, tol: Real) -> bool {
    (Real { bits: NEAR_START }).at_most(foot.along) && foot.along.at_most(
        Real { bits: NEAR_END },
    ) && foot.off.at_most(tol)
}

/// The joints that belong on a piece, among the first `k`.
pub open spec fn joints_on(piece: PieceProbe, k: int) -> Seq<usize>
    decreases k,
{
    if k <= 0 {
        Seq::empty()
    } else if foot_counts(piece.feet@[k - 1], piece.tol) {
        joints_on(piece, k - 1).push((k - 1) as usize)
    } else {
        joints_on(piece, k - 1)
    }
}

/// Where each joint stands along a piece.
pub open spec fn foot_places(feet: Seq<Foot>) -> Seq<Place> {
    Seq::new(feet.len(), |i: int| Place { piece: 0, along: feet[i].along })
}

/// The first `k` joints of a list, without those on the spot of the point
/// before them.
pub open spec fn grafts(
    piece: PieceProbe,
    apart: Seq<Vec<Real>>,
    list: Seq<usize>,
    k: int,
) -> Seq<usize>
    decreases k,
{
    if k <= 0 {
        Seq::empty()
    } else {
        let kept = grafts(piece, apart, list, k - 1);
        let x = list[k - 1];
        let distance = if kept.len() == 0 {
            piece.feet@[x as int].from_start
        } else {
            apart[kept.last() as int]@[x as int]
        };
        if point_gap().below(distance) {
            kept.push(x)
        } else {
            kept
        }
    }
}

/// The joints put into a piece, in order along it.
pub open spec fn grafted(piece: PieceProbe, apart: Seq<Vec<Real>>) -> Seq<usize> {
    if piece.length2.below(Real { bits: NO_LENGTH }) {
        Seq::empty()
    } else {
        let list = ordered(foot_places(piece.feet@), joints_on(piece, piece.feet@.len() as int));
        grafts(piece, apart, list, list.len() as int)
    }
}

/// The first `k` pieces of a polyline, each with its joints put in.
pub open spec fn with_joints(
    poly: Seq<Point3>,
    joints: Seq<Point3>,
    pieces: Seq<PieceProbe>,
    apart: Seq<Vec<Real>>,
    k: int,
) -> Seq<Point3>
    decreases k,
{
    if k <= 0 {
        Seq::empty()
    } else {
        with_joints(poly, joints, pieces, apart, k - 1) + seq![poly[k - 1]] + picked_points(
            joints,
            grafted(pieces[k - 1], apart),
        )
    }
}

/// A polyline with the joints that lie on it put in.
pub open spec fn jointed(
    poly: Seq<Point3>,
    joints: Seq<Point3>,
    pieces: Seq<PieceProbe>,
    apart: Seq<Vec<Real>>,
) -> Seq<Point3> {
    if joints.len() == 0 || poly.len() < 2 {
        poly
    } else {
        with_joints(poly, joints, pieces, apart, poly.len() - 1).push(poly.last())
    }
}

/// Whether every piece of a polyline was measured against every joint.
pub open spec fn pieces_measured(
    poly: Seq<Point3>,
    joints: Seq<Point3>,
    pieces: Seq<PieceProbe>,
    apart: Seq<Vec<Real>>,
) -> bool {
    joints.len() == 0 || poly.len() < 2 || {
        &&& pieces.len() >= poly.len() - 1
        &&& forall|i: int|
            0 <= i < pieces.len() ==> (#[trigger] pieces[i]).feet@.len() == joints.len()
        &&& covers(apart, joints.len() as int)
    }
}

/// What `joints_on` holds.
proof fn lemma_joints_on(piece: PieceProbe, k: int)
    requires
        0 <= k <= piece.feet@.len() <= usize::MAX,
    ensures
        ascending(joints_on(piece, k)),
        all_below(joints_on(piece, k), k),
        forall|i: int|
            0 <= i < joints_on(piece, k).len() ==> foot_counts(
                piece.feet@[(#[trigger] joints_on(piece, k)[i]) as int],
                piece.tol,
            ),
    decreases k,
{
    if k > 0 {
        lemma_joints_on(piece, k - 1);
    }
}

proof fn lemma_grafts(
    piece: PieceProbe,
    apart: Seq<Vec<Real>>,
    list: Seq<usize>,
    k: int,
    n: int,
)
    requires
        0 <= k <= list.len(),
        all_below(list, n),
    ensures
        all_below(grafts(piece, apart, list, k), n),
        forall|i: int|
            0 <= i < grafts(piece, apart, list, k).len() ==> list.contains(
                #[trigger] grafts(piece, apart, list, k)[i],
            ),
    decreases k,
{
    if k > 0 {
        lemma_grafts(piece, apart, list, k - 1, n);
        assert(list.contains(list[k - 1]));
    }
}

/// The joints that are put into a piece belong on it.
pub proof fn law_grafts_belong(piece: PieceProbe, apart: Seq<Vec<Real>>, i: int)
    requires
        piece.feet@.len() <= usize::MAX,
        0 <= i < grafted(piece, apart).len(),
    ensures
        grafted(piece, apart)[i] < piece.feet@.len(),
        foot_counts(piece.feet@[grafted(piece, apart)[i] as int], piece.tol),
{
    let n = piece.feet@.len() as int;
    let hits = joints_on(piece, n);
    let spots = foot_places(piece.feet@);
    lemma_joints_on(piece, n);
    assert(placed(spots, hits)) by {
        assert forall|j: int| 0 <= j < hits.len() implies (#[trigger] hits[j]) < spots.len()
            && !spots[hits[j] as int].along.nan() by {
            assert(foot_counts(piece.feet@[hits[j] as int], piece.tol));
        }
    }
    lemma_ordered_is_there(spots, hits);
    let list = ordered(spots, hits);
    assert(all_below(list, n)) by {
        assert forall|j: int| 0 <= j < list.len() implies (#[trigger] list[j]) < n by {
            assert(list.contains(list[j]));
            assert(hits.contains(list[j]));
        }
    }
    lemma_grafts(piece, apart, list, list.len() as int, n);
    let x = grafted(piece, apart)[i];
    assert(list.contains(x));
    assert(hits.contains(x));
    let j = choose|j: int| 0 <= j < hits.len() && hits[j] == x;
    assert(foot_counts(piece.feet@[hits[j] as int], piece.tol));
}

/// The joints put into a piece, in order along it.
fn graft(piece: &PieceProbe, apart: &Vec<Vec<Real>>, n: usize) -> (kept: Vec<usize>)
    requires
        piece.feet@.len() == n,
        covers(apart@, n as int),
    ensures
        kept@ == grafted(*piece, apart@),
        all_below(kept@, n as int),
{
    let mut kept: Vec<usize> = Vec::new();
    if piece.length2.lt(Real { bits: NO_LENGTH }) {
        return kept;
    }
    let mut hits: Vec<usize> = Vec::new();
    let mut spots: Vec<Place> = Vec::new();
    let mut k: usize = 0;
    while k < n
        invariant
            piece.feet@.len() == n,
            k <= n,
            hits@ == joints_on(*piece, k as int),
            spots@ == foot_places(piece.feet@).subrange(0, k as int),
        decreases n - k,
    {
        let f = piece.feet[k];
        spots.push(Place { piece: 0, along: f.along });
        if f.along.ge(Real { bits: NEAR_START }) && f.along.le(Real { bits: NEAR_END })
            && f.off.le(piece.tol) {
            hits.push(k);
        }
        k += 1;
        assert(spots@ =~= foot_places(piece.feet@).subrange(0, k as int));
    }
    proof {
        lemma_joints_on(*piece, n as int);
        assert(spots@ =~= foot_places(piece.feet@));
    }
    assert(placed(spots@, hits@)) by {
        assert forall|i: int| 0 <= i < hits@.len() implies (#[trigger] hits@[i]) < spots@.len()
            && !spots@[hits@[i] as int].along.nan() by {
            assert(foot_counts(piece.feet@[hits@[i] as int], piece.tol));
        }
    }
    let list = arrange_places(&spots, &hits);
    assert(all_below(list@, n as int)) by {
        assert forall|i: int| 0 <= i < list@.len() implies (#[trigger] list@[i]) < n by {
            assert(list@.contains(list@[i]));
            assert(hits@.contains(list@[i]));
        }
    }
    let mut i: usize = 0;
    while i < list.len()
        invariant
            piece.feet@.len() == n,
            covers(apart@, n as int),
            all_below(list@, n as int),
            i <= list@.len(),
            kept@ == grafts(*piece, apart@, list@, i as int),
            all_below(kept@, n as int),
        decreases list@.len() - i,
    {
        let x: usize = list[i];
        assert(list@[i as int] < n);
        let distance = if kept.len() == 0 {
            piece.feet[x].from_start
        } else {
            let last: usize = kept[kept.len() - 1];
            assert(kept@[kept@.len() - 1] < n);
            assert(apart@[last as int]@.len() >= n);
            apart[last][x]
        };
        if distance.gt(Real { bits: POINT_GAP }) {
            kept.push(x);
        }
        i += 1;
    }
    kept
}

/// Put every joint that lies on a polyline into it, at its own position.
pub fn insert_joints(
    poly: &mut Vec<Point3>,
    joints: &[Point3],
    pieces: &[PieceProbe],
    apart: &Vec<Vec<Real>>,
)
    requires
        pieces_measured(old(poly)@, joints@, pieces@, apart@),
    ensures
        final(poly)@ == jointed(old(poly)@, joints@, pieces@, apart@),
{
    if joints.len() == 0 || poly.len() < 2 {
        return;
    }
    let n: usize = poly.len();
    let m: usize = joints.len();
    let ghost given = poly@;
    let mut out: Vec<Point3> = Vec::new();
    let mut k: usize = 0;
    while k < n - 1
        invariant
            poly@ == given,
            n == given.len(),
            n >= 2,
            m == joints@.len(),
            m > 0,
            pieces_measured(given, joints@, pieces@, apart@),
            k <= n - 1,
            out@ == with_joints(given, joints@, pieces@, apart@, k as int),
        decreases n - k,
    {
        let ghost before = out@;
        out.push(poly[k]);
        assert(pieces@[k as int].feet@.len() == m);
        let list = graft(&pieces[k], apart, m);
        let mut more = pick_points(joints, &list);
        let ghost added = more@;
        out.append(&mut more);
        assert(out@ =~= before + seq![given[k as int]] + added);
        k += 1;
    }
    out.push(poly[n - 1]);
    *poly = out;
}

/// Putting joints into a polyline keeps all of its points, in order.
pub proof fn law_joints_keep_points(
    poly: Seq<Point3>,
    joints: Seq<Point3>,
    pieces: Seq<PieceProbe>,
    apart: Seq<Vec<Real>>,
    i: int,
)
    requires
        0 <= i < poly.len(),
    ensures
        jointed(poly, joints, pieces, apart).len() >= poly.len(),
        jointed(poly, joints, pieces, apart).first() == poly.first(),
        jointed(poly, joints, pieces, apart).last() == poly.last(),
        jointed(poly, joints, pieces, apart).contains(poly[i]),
{
    if joints.len() == 0 || poly.len() < 2 {
        assert(poly.contains(poly[i]));
    } else {
        lemma_with_joints(poly, joints, pieces, apart, poly.len() - 1);
        let whole = jointed(poly, joints, pieces, apart);
        let body = with_joints(poly, joints, pieces, apart, poly.len() - 1);
        if i < poly.len() - 1 {
            assert(body.contains(poly[i]));
            let j = choose|j: int| 0 <= j < body.len() && body[j] == poly[i];
            assert(whole[j] == poly[i]);
        } else {
            assert(whole[whole.len() - 1] == poly[i]);
        }
    }
}

proof fn lemma_with_joints(
    poly: Seq<Point3>,
    joints: Seq<Point3>,
    pieces: Seq<PieceProbe>,
    apart: Seq<Vec<Real>>,
    k: int,
)
    requires
        0 <= k <= poly.len(),
    ensures
        with_joints(poly, joints, pieces, apart, k).len() >= k,
        k > 0 ==> with_joints(poly, joints, pieces, apart, k).first() == poly.first(),
        forall|i: int|
            0 <= i < k ==> with_joints(poly, joints, pieces, apart, k).contains(#[trigger] poly[i]),
    decreases k,
{
    if k > 0 {
        lemma_with_joints(poly, joints, pieces, apart, k - 1);
        let before = with_joints(poly, joints, pieces, apart, k - 1);
        let now = with_joints(poly, joints, pieces, apart, k);
        assert forall|i: int| 0 <= i < k implies now.contains(#[trigger] poly[i]) by {
            if i < k - 1 {
                assert(before.contains(poly[i]));
                let j = choose|j: int| 0 <= j < before.len() && before[j] == poly[i];
                assert(now[j] == poly[i]);
            } else {
                assert(now[before.len() as int] == poly[i]);
            }
        }
    }
}

// ── The seam ────────────────────────────────────────────────────────────────

/// The angles of a chain on a cylinder.
#[derive(Clone, Debug)]
pub struct ChainSpan {
    /// How far it spreads round the axis.
    pub width: Real,
    /// The angle of each of its points, within a turn.
    pub turns: Vec<Real>,
}

/// The angles of those of the first `k` chains that do not run all round.
pub open spec fn local_turns(chains: Seq<ChainSpan>, k: int) -> Seq<Real>
    decreases k,
{
    if k <= 0 {
        Seq::empty()
    } else if (Real { bits: MOST_OF_A_TURN }).below(chains[k - 1].width) {
        local_turns(chains, k - 1)
    } else {
        local_turns(chains, k - 1) + chains[k - 1].turns@
    }
}

/// Where each number stands among the others.
pub open spec fn value_places(values: Seq<Real>) -> Seq<Place> {
    Seq::new(values.len(), |i: int| Place { piece: 0, along: values[i] })
}

/// Numbers in rising order.
pub open spec fn rising(values: Seq<Real>) -> Seq<Real> {
    let order = ordered(value_places(values), counting(values.len() as int));
    Seq::new(order.len(), |i: int| values[order[i] as int])
}

/// Whether every angle of every chain is a number.
pub open spec fn turns_are_numbers(chains: Seq<ChainSpan>) -> bool {
    forall|i: int, j: int|
        0 <= i < chains.len() && 0 <= j < chains[i].turns@.len() ==> !(
        #[trigger] chains[i].turns@[j]).nan()
}

/// The angles round a cylinder that chains occupy, in rising order; chains that
/// run all round do not count.
pub fn seam_samples(chains: &[ChainSpan]) -> (sorted: Vec<Real>)
    requires
        turns_are_numbers(chains@),
    ensures
        sorted@ == rising(local_turns(chains@, chains@.len() as int)),
{
    let mut all: Vec<Real> = Vec::new();
    let mut k: usize = 0;
    while k < chains.len()
        invariant
            turns_are_numbers(chains@),
            k <= chains@.len(),
            all@ == local_turns(chains@, k as int),
            forall|i: int| 0 <= i < all@.len() ==> !(#[trigger] all@[i]).nan(),
        decreases chains@.len() - k,
    {
        let c: &ChainSpan = &chains[k];
        if !c.width.gt(Real { bits: MOST_OF_A_TURN }) {
            let ghost before = all@;
            let mut j: usize = 0;
            assert(before =~= before + c.turns@.subrange(0, 0));
            while j < c.turns.len()
                invariant
                    turns_are_numbers(chains@),
                    k < chains@.len(),
                    *c == chains@[k as int],
                    j <= c.turns@.len(),
                    all@ == before + c.turns@.subrange(0, j as int),
                    forall|i: int| 0 <= i < all@.len() ==> !(#[trigger] all@[i]).nan(),
                decreases c.turns@.len() - j,
            {
                assert(!chains@[k as int].turns@[j as int].nan());
                all.push(c.turns[j]);
                j += 1;
                assert(all@ =~= before + c.turns@.subrange(0, j as int));
            }
            assert(c.turns@.subrange(0, j as int) =~= c.turns@);
        }
        k += 1;
    }
    let n: usize = all.len();
    let mut spots: Vec<Place> = Vec::new();
    let mut i: usize = 0;
    while i < n
        invariant
            n == all@.len(),
            i <= n,
            spots@ == value_places(all@).subrange(0, i as int),
        decreases n - i,
    {
        spots.push(Place { piece: 0, along: all[i] });
        i += 1;
        assert(spots@ =~= value_places(all@).subrange(0, i as int));
    }
    assert(spots@ =~= value_places(all@));
    let every = count_up(n);
    assert(placed(spots@, every@)) by {
        assert forall|j: int| 0 <= j < every@.len() implies (#[trigger] every@[j]) < spots@.len()
            && !spots@[every@[j] as int].along.nan() by {
            assert(!all@[j].nan());
        }
    }
    let order = arrange_places(&spots, &every);
    let mut sorted: Vec<Real> = Vec::new();
    let mut j: usize = 0;
    let ghost whole = rising(all@);
    while j < order.len()
        invariant
            order@ == ordered(value_places(all@), counting(all@.len() as int)),
            same_numbers(order@, counting(all@.len() as int)),
            whole == rising(all@),
            j <= order@.len(),
            sorted@ == whole.subrange(0, j as int),
        decreases order@.len() - j,
    {
        assert(order@.contains(order@[j as int]));
        assert(counting(all@.len() as int).contains(order@[j as int]));
        sorted.push(all[order[j]]);
        j += 1;
        assert(sorted@ =~= whole.subrange(0, j as int));
    }
    assert(sorted@ =~= whole);
    sorted
}

/// The widest of the first `k` gaps and its middle; the first of several.
pub open spec fn widest(gaps: Seq<Real>, middles: Seq<Real>, k: int) -> (Real, Real)
    decreases k,
{
    if k <= 0 {
        (Real { bits: 0 }, Real { bits: 0 })
    } else {
        let best = widest(gaps, middles, k - 1);
        if best.0.below(gaps[k - 1]) {
            (gaps[k - 1], middles[k - 1])
        } else {
            best
        }
    }
}

/// Where the seam goes: the middle of the widest gap between angles, if it is
/// wide enough to matter.
pub open spec fn seam_place(gaps: Seq<Real>, middles: Seq<Real>) -> Option<Real> {
    let best = widest(gaps, middles, gaps.len() as int);
    if gaps.len() == 0 || best.0.below(Real { bits: NEAR_START }) {
        None
    } else {
        Some(best.1)
    }
}

/// Where to turn the seam of a cylinder: `gaps` are the gaps between
/// neighbouring angles all the way round, `middles` their middles.
pub fn seam_rotation(gaps: &[Real], middles: &[Real]) -> (rotation: Option<Real>)
    requires
        gaps@.len() == middles@.len(),
    ensures
        rotation == seam_place(gaps@, middles@),
{
    let mut best = Real { bits: 0 };
    let mut middle = Real { bits: 0 };
    let mut k: usize = 0;
    while k < gaps.len()
        invariant
            gaps@.len() == middles@.len(),
            k <= gaps@.len(),
            (best, middle) == widest(gaps@, middles@, k as int),
        decreases gaps@.len() - k,
    {
        if gaps[k].gt(best) {
            best = gaps[k];
            middle = middles[k];
        }
        k += 1;
    }
    if gaps.len() == 0 || best.lt(Real { bits: NEAR_START }) {
        None
    } else {
        Some(middle)
    }
}

/// A seam that was found stands in a gap that no other is wider than.
pub proof fn law_seam_is_in_the_widest_gap(gaps: Seq<Real>, middles: Seq<Real>, i: int)
    requires
        gaps.len() == middles.len(),
        0 <= i < gaps.len(),
        seam_place(gaps, middles) is Some,
    ensures
        exists|w: int|
            0 <= w < gaps.len() && !(#[trigger] gaps[w]).below(gaps[i])
                && !gaps[w].below(Real { bits: NEAR_START })
                && seam_place(gaps, middles) == Some(middles[w]),
{
    let n = gaps.len() as int;
    lemma_widest(gaps, middles, n);
    let best = widest(gaps, middles, n);
    assert(!best.0.below(gaps[i]));
    if best == (Real { bits: 0 }, Real { bits: 0 }) {
        assert(best.0.below(Real { bits: NEAR_START }));
    }
    let w = choose|w: int| 0 <= w < n && best == (#[trigger] gaps[w], middles[w]);
    assert(gaps[w] == best.0);
}

proof fn lemma_widest(gaps: Seq<Real>, middles: Seq<Real>, k: int)
    requires
        gaps.len() == middles.len(),
        0 <= k <= gaps.len(),
    ensures
        forall|i: int| 0 <= i < k ==> !widest(gaps, middles, k).0.below(#[trigger] gaps[i]),
        !widest(gaps, middles, k).0.nan(),
        widest(gaps, middles, k) == (Real { bits: 0 }, Real { bits: 0 }) || exists|w: int|
            0 <= w < k && widest(gaps, middles, k) == (#[trigger] gaps[w], middles[w]),
    decreases k,
{
    if k > 0 {
        lemma_widest(gaps, middles, k - 1);
        let best = widest(gaps, middles, k - 1);
        if best.0.below(gaps[k - 1]) {
            assert(widest(gaps, middles, k) == (gaps[k - 1], middles[k - 1]));
        } else if best != (Real { bits: 0 }, Real { bits: 0 }) {
            let w = choose|w: int| 0 <= w < k - 1 && best == (#[trigger] gaps[w], middles[w]);
            assert(0 <= w < k);
        }
    }
}

/// A step of a chain against the seam.
#[derive(Clone, Copy, Debug, PartialEq, Eq, Structural)]
pub struct SeamStep {
    /// Angle at its start, counted from the seam.
    pub from: Real,
    /// Angle at its end.
    pub to: Real,
    /// How far apart the two are.
    pub jump: Real,
    /// How far along the step the seam is, 0 to 1.
    pub along: Real,
    /// The point there.
    pub point: Point3,
}

/// Whether a step crosses the seam; a step of more than half a turn is only the
/// angle starting over.
pub open spec fn crosses_seam(step: SeamStep) -> bool {
    let zero = Real { bits: 0 };
    !(Real { bits: HALF_TURN }).below(step.jump) && zero.below(step.from) != zero.below(step.to)
        && zero.at_most(step.along) && step.along.at_most(Real { bits: ONE })
}

/// The points where the first `k` steps cross the seam.
pub open spec fn seam_points(steps: Seq<SeamStep>, k: int) -> Seq<Point3>
    decreases k,
{
    if k <= 0 {
        Seq::empty()
    } else if crosses_seam(steps[k - 1]) {
        seam_points(steps, k - 1).push(steps[k - 1].point)
    } else {
        seam_points(steps, k - 1)
    }
}

/// The points where chains cross the seam.
pub fn seam_crossings(steps: &[SeamStep]) -> (points: Vec<Point3>)
    ensures
        points@ == seam_points(steps@, steps@.len() as int),
{
    let zero = Real { bits: 0 };
    let mut points: Vec<Point3> = Vec::new();
    let mut k: usize = 0;
    while k < steps.len()
        invariant
            zero == (Real { bits: 0 }),
            k <= steps@.len(),
            points@ == seam_points(steps@, k as int),
        decreases steps@.len() - k,
    {
        let s = steps[k];
        if !s.jump.gt(Real { bits: HALF_TURN }) && s.from.gt(zero) != s.to.gt(zero) && s.along.ge(
            zero,
        ) && s.along.le(Real { bits: ONE }) {
            points.push(s.point);
        }
        k += 1;
    }
    points
}

// ── Chains ──────────────────────────────────────────────────────────────────

/// 1e-12.
pub const CHAIN_GAP: u64 = 0x3D71_9799_812D_EA11;

/// The tag of the first section chain.
pub const SECTION_TAG: u32 = 1000;

/// A point in the parameters of a surface.
#[derive(Clone, Copy, Debug, PartialEq, Eq, Structural)]
pub struct Uv {
    /// First parameter.
    pub u: Real,
    /// Second parameter.
    pub v: Real,
}

/// Whether two numbers are equal; a NaN equals nothing.
pub open spec fn equal(a: Real, b: Real) -> bool {
    a.at_most(b) && b.at_most(a)
}

/// Whether two points are the same.
pub open spec fn same_spot(a: Uv, b: Uv) -> bool {
    equal(a.u, b.u) && equal(a.v, b.v)
}

/// A chain that splits a face, with a tag that tells where it is from.
#[derive(Clone, Debug)]
pub struct FaceChain {
    /// Its points.
    pub pts: Vec<Uv>,
    /// Its tag.
    pub tag: u32,
}

/// What a chain is.
#[verifier::ext_equal]
pub struct ChainView {
    pub pts: Seq<Uv>,
    pub tag: u32,
}

impl FaceChain {
    /// What the chain is.
    pub open spec fn view(&self) -> ChainView {
        ChainView { pts: self.pts@, tag: self.tag }
    }
}

/// What each of several chains is.
pub open spec fn chain_views(chains: Seq<FaceChain>) -> Seq<ChainView> {
    Seq::new(chains.len(), |i: int| chains[i]@)
}

/// A section curve in the parameters of the face that it is on.
#[derive(Clone, Debug)]
pub struct UvCurve {
    /// Its points.
    pub pts: Vec<Uv>,
    /// Whether it is a loop.
    pub closed: bool,
}

/// The numbers kept on a walk round a boundary.
pub open spec fn walk_kept(apart: Seq<Vec<Real>>, n: int) -> Seq<usize> {
    thinned(apart, Apart::Above(Real { bits: CHAIN_GAP }), counting(n), n)
}

/// A walk round a boundary as a chain that ends where it starts; none if it has
/// fewer than three points.
pub open spec fn closed_chain(walk: Seq<Uv>, apart: Seq<Vec<Real>>) -> Option<Seq<Uv>> {
    let kept = walk_kept(apart, walk.len() as int);
    let pts = Seq::new(kept.len(), |i: int| walk[kept[i] as int]);
    if kept.len() < 3 {
        None
    } else if same_spot(pts.first(), pts.last()) {
        Some(pts)
    } else {
        Some(pts.push(pts.first()))
    }
}

/// A walk round a boundary as a chain that ends where it starts.  `apart` holds
/// the distances in space between any two points of the walk.
pub fn boundary_chain(walk: &[Uv], apart: &Vec<Vec<Real>>) -> (chain: Option<Vec<Uv>>)
    requires
        covers(apart@, walk@.len() as int),
    ensures
        match chain {
            Some(pts) => closed_chain(walk@, apart@) == Some(pts@),
            None => closed_chain(walk@, apart@) is None,
        },
{
    let n: usize = walk.len();
    let every = count_up(n);
    assert(all_below(every@, n as int));
    let kept = thin(apart, Apart::Above(Real { bits: CHAIN_GAP }), &every);
    proof {
        lemma_thinned(
            apart@,
            Apart::Above(Real { bits: CHAIN_GAP }),
            every@,
            n as int,
            n as int,
        );
    }
    if kept.len() < 3 {
        return None;
    }
    let ghost whole = Seq::new(kept@.len(), |i: int| walk@[kept@[i] as int]);
    let mut pts: Vec<Uv> = Vec::new();
    let mut k: usize = 0;
    while k < kept.len()
        invariant
            n == walk@.len(),
            all_below(kept@, n as int),
            whole == Seq::new(kept@.len(), |i: int| walk@[kept@[i] as int]),
            k <= kept@.len(),
            pts@ == whole.subrange(0, k as int),
        decreases kept@.len() - k,
    {
        assert(kept@[k as int] < n);
        pts.push(walk[kept[k]]);
        k += 1;
        assert(pts@ =~= whole.subrange(0, k as int));
    }
    assert(pts@ =~= whole);
    let first = pts[0];
    let last = pts[pts.len() - 1];
    if !(first.u.le(last.u) && last.u.le(first.u) && first.v.le(last.v) && last.v.le(first.v)) {
        pts.push(first);
    }
    Some(pts)
}

/// One ring of a face's boundary, walked.
#[derive(Clone, Debug)]
pub struct RingWalk {
    /// Its samples, with the joints on it, in the parameters of the surface.
    pub walk: Vec<Uv>,
    /// The distances in space between any two of them.
    pub apart: Vec<Vec<Real>>,
}

/// The chains of the first `k` rings, those with points enough.
pub open spec fn ring_chains(rings: Seq<RingWalk>, k: int) -> Seq<Seq<Uv>>
    decreases k,
{
    if k <= 0 {
        Seq::empty()
    } else {
        match closed_chain(rings[k - 1].walk@, rings[k - 1].apart@) {
            Some(pts) => ring_chains(rings, k - 1).push(pts),
            None => ring_chains(rings, k - 1),
        }
    }
}

/// The boundary chains of a face: those of its own rings, or those that its
/// extent implies if it has no ring with points enough.
pub open spec fn face_chains(looped: bool, rings: Seq<RingWalk>, template: Seq<Seq<Uv>>) -> Seq<
    Seq<Uv>,
> {
    let own = ring_chains(rings, rings.len() as int);
    if !looped || own.len() == 0 {
        template
    } else {
        own
    }
}

/// Chains as plain sequences.
pub open spec fn uv_views(chains: Seq<Vec<Uv>>) -> Seq<Seq<Uv>> {
    Seq::new(chains.len(), |i: int| chains[i]@)
}

/// The boundary chains of a face, with the section joints on them.  `rings`
/// holds a walk round each ring that `face_rings` gives, `template` the chains
/// that the face's extent implies.
pub fn boundary_chains_with_joints(
    brep: &BRep,
    face: FaceId,
    rings: &[RingWalk],
    template: Vec<Vec<Uv>>,
) -> (chains: Vec<Vec<Uv>>)
    requires
        brep.wf(),
        forall|i: int|
            0 <= i < rings@.len() ==> covers(
                (#[trigger] rings@[i]).apart@,
                rings@[i].walk@.len() as int,
            ),
    ensures
        uv_views(chains@) == face_chains(
            brep@.faces.dom().contains(face) && live_loop(brep@, brep@.faces[face].outer_loop),
            rings@,
            uv_views(template@),
        ),
{
    if !brep.has_real_loops(face) {
        return template;
    }
    let mut chains: Vec<Vec<Uv>> = Vec::new();
    let mut k: usize = 0;
    assert(uv_views(chains@) =~= Seq::empty());
    while k < rings.len()
        invariant
            k <= rings@.len(),
            forall|i: int|
                0 <= i < rings@.len() ==> covers(
                    (#[trigger] rings@[i]).apart@,
                    rings@[i].walk@.len() as int,
                ),
            uv_views(chains@) == ring_chains(rings@, k as int),
        decreases rings@.len() - k,
    {
        assert(covers(rings@[k as int].apart@, rings@[k as int].walk@.len() as int));
        match boundary_chain(&rings[k].walk, &rings[k].apart) {
            Some(pts) => {
                let ghost before = chains@;
                chains.push(pts);
                assert(uv_views(chains@) =~= uv_views(before).push(pts@));
            },
            None => {},
        }
        k += 1;
    }
    if chains.len() == 0 {
        template
    } else {
        chains
    }
}

/// The chains of the first `k` boundaries, tagged from 1 on.
pub open spec fn tagged_boundaries(boundaries: Seq<Vec<Uv>>, k: int) -> Seq<ChainView>
    decreases k,
{
    if k <= 0 {
        Seq::empty()
    } else {
        tagged_boundaries(boundaries, k - 1).push(
            ChainView { pts: boundaries[k - 1]@, tag: k as u32 },
        )
    }
}

/// The points of a section chain: a loop's first point stands at its end again.
pub open spec fn section_points(curve: UvCurve) -> Seq<Uv> {
    if curve.closed && curve.pts@.len() >= 3 {
        curve.pts@.push(curve.pts@.first())
    } else {
        curve.pts@
    }
}

/// The chains of the first `k` section curves, tagged in turn; one of fewer
/// than two points is none.
pub open spec fn tagged_sections(curves: Seq<UvCurve>, k: int) -> Seq<ChainView>
    decreases k,
{
    if k <= 0 {
        Seq::empty()
    } else {
        let before = tagged_sections(curves, k - 1);
        let pts = section_points(curves[k - 1]);
        if pts.len() >= 2 {
            before.push(ChainView { pts, tag: (SECTION_TAG + before.len()) as u32 })
        } else {
            before
        }
    }
}

proof fn lemma_tagged_sections(curves: Seq<UvCurve>, k: int)
    requires
        0 <= k <= curves.len(),
    ensures
        tagged_sections(curves, k).len() <= k,
    decreases k,
{
    if k > 0 {
        lemma_tagged_sections(curves, k - 1);
    }
}

/// A copy of several points.
fn copy_points(pts: &Vec<Uv>) -> (copy: Vec<Uv>)
    ensures
        copy@ == pts@,
{
    let mut copy: Vec<Uv> = Vec::new();
    let mut k: usize = 0;
    while k < pts.len()
        invariant
            k <= pts@.len(),
            copy@ == pts@.subrange(0, k as int),
        decreases pts@.len() - k,
    {
        copy.push(pts[k]);
        k += 1;
        assert(copy@ =~= pts@.subrange(0, k as int));
    }
    assert(copy@ =~= pts@);
    copy
}

/// Every chain that splits a face: its boundaries, and the section curves on
/// it.
pub fn arranged_chains(boundaries: &[Vec<Uv>], curves: &[UvCurve]) -> (chains: Vec<FaceChain>)
    requires
        boundaries@.len() <= u32::MAX,
        SECTION_TAG + curves@.len() <= u32::MAX,
    ensures
        chain_views(chains@) == tagged_boundaries(boundaries@, boundaries@.len() as int)
            + tagged_sections(curves@, curves@.len() as int),
{
    let mut chains: Vec<FaceChain> = Vec::new();
    let mut k: usize = 0;
    assert(chain_views(chains@) =~= tagged_boundaries(boundaries@, 0));
    while k < boundaries.len()
        invariant
            boundaries@.len() <= u32::MAX,
            k <= boundaries@.len(),
            chain_views(chains@) == tagged_boundaries(boundaries@, k as int),
        decreases boundaries@.len() - k,
    {
        let ghost before = chains@;
        let chain = FaceChain { pts: copy_points(&boundaries[k]), tag: (k + 1) as u32 };
        chains.push(chain);
        k += 1;
        assert(chain_views(chains@) =~= chain_views(before).push(chain@));
    }
    let ghost first = chain_views(chains@);
    assert(chain_views(chains@) =~= first + tagged_sections(curves@, 0));
    let mut tag: u32 = SECTION_TAG;
    let mut j: usize = 0;
    while j < curves.len()
        invariant
            SECTION_TAG + curves@.len() <= u32::MAX,
            j <= curves@.len(),
            tag == SECTION_TAG + tagged_sections(curves@, j as int).len(),
            chain_views(chains@) == first + tagged_sections(curves@, j as int),
        decreases curves@.len() - j,
    {
        proof {
            lemma_tagged_sections(curves@, j as int);
        }
        let c: &UvCurve = &curves[j];
        let mut pts = copy_points(&c.pts);
        if c.closed && pts.len() >= 3 {
            let start = pts[0];
            pts.push(start);
        }
        assert(pts@ == section_points(*c));
        let ghost before = chains@;
        if pts.len() >= 2 {
            let chain = FaceChain { pts, tag };
            chains.push(chain);
            assert(chain_views(chains@) =~= chain_views(before).push(chain@));
            tag = tag + 1;
        }
        j += 1;
        assert(chain_views(chains@) =~= first + tagged_sections(curves@, j as int));
    }
    chains
}

} // verus!
