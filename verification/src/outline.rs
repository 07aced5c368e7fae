//! The outline of a section: its curves split where they cross, and chained
//! into loops.

use vstd::prelude::*;

use crate::boundary::{count_up, counting, pick_points};
use crate::geometry::Point3;
use crate::ids::FaceId;
use crate::polyline::{
    all_below, arrange_places, ascending, covers, lemma_thinned, ordered, placed, thin, thinned,
    Apart, Place,
};
use crate::scalar::{clamp, larger, smaller, Real};
use crate::section::NO_LENGTH;
use crate::ssi::{CurveView, SsiCurve};

verus! {

/// 1e-14.
pub const NO_ANGLE: u64 = 0x3D06_849B_86A1_2B9B;

/// -1e-9.
pub const BEFORE_START: u64 = 0xBE11_2E0B_E826_D695;

/// 1 + 1e-9.
pub const PAST_END: u64 = 0x3FF0_0000_0044_B830;

/// One.
pub const ONE: u64 = 0x3FF0_0000_0000_0000;

// ── Crossings ───────────────────────────────────────────────────────────────

/// Where the lines of two segments meet.
#[derive(Clone, Copy, Debug, PartialEq, Eq, Structural)]
pub struct SegMeet {
    /// Determinant of the two directions.
    pub den: Real,
    /// How far along the first.
    pub first: Real,
    /// How far along the second.
    pub second: Real,
}

/// Whether a place is on a segment, give or take.
pub open spec fn on_segment(t: Real) -> bool {
    (Real { bits: BEFORE_START }).at_most(t) && t.at_most(Real { bits: PAST_END })
}

/// A place on a segment, brought between its ends.
pub open spec fn between_ends(t: Real) -> Real {
    smaller(larger(t, Real { bits: 0 }), Real { bits: ONE })
}

/// Where two segments cross: on both of them, if they are not parallel.
pub open spec fn crossing(m: SegMeet) -> Option<(Real, Real)> {
    if m.den.unsigned().below(Real { bits: NO_ANGLE }) || !on_segment(m.first) || !on_segment(
        m.second,
    ) {
        None
    } else {
        Some((between_ends(m.first), between_ends(m.second)))
    }
}

/// Where two segments cross.
pub fn seg_cross(m: SegMeet) -> (places: Option<(Real, Real)>)
    ensures
        places == crossing(m),
{
    if m.den.abs().lt(Real { bits: NO_ANGLE }) {
        return None;
    }
    let lo = Real { bits: BEFORE_START };
    let hi = Real { bits: PAST_END };
    if !(m.first.ge(lo) && m.first.le(hi)) || !(m.second.ge(lo) && m.second.le(hi)) {
        return None;
    }
    let zero = Real { bits: 0 };
    let one = Real { bits: ONE };
    Some((clamp(m.first, zero, one), clamp(m.second, zero, one)))
}

/// A crossing of two section curves.
#[derive(Clone, Copy, Debug, PartialEq, Eq, Structural)]
pub struct SectionCrossing {
    /// The first curve.
    pub one: usize,
    /// Where on it.
    pub on_one: Place,
    /// The second curve.
    pub other: usize,
    /// Where on it.
    pub on_other: Place,
    /// The point.
    pub point: Point3,
}

/// Two segments, measured: where their lines meet, and the point of the first
/// that is nearest to that.
#[derive(Clone, Copy, Debug, PartialEq, Eq, Structural)]
pub struct SegPair {
    /// Where the lines meet.
    pub meet: SegMeet,
    /// The point on the first segment, brought between its ends.
    pub point: Point3,
}

/// The segments of two curves, each of the first against each of the second.
pub type PairTable = Vec<Vec<SegPair>>;

/// The crossing of two segments, if they cross.
pub open spec fn pair_crossing(
    one: int,
    si: int,
    other: int,
    sj: int,
    pair: SegPair,
) -> Seq<SectionCrossing> {
    match crossing(pair.meet) {
        None => Seq::empty(),
        Some(places) => seq![
            SectionCrossing {
                one: one as usize,
                on_one: Place { piece: si as usize, along: places.0 },
                other: other as usize,
                on_other: Place { piece: sj as usize, along: places.1 },
                point: pair.point,
            },
        ],
    }
}

/// The crossings of a segment with the first `k` of another curve.
pub open spec fn row_crossings(
    one: int,
    si: int,
    other: int,
    row: Seq<SegPair>,
    k: int,
) -> Seq<SectionCrossing>
    decreases k,
{
    if k <= 0 {
        Seq::empty()
    } else {
        row_crossings(one, si, other, row, k - 1) + pair_crossing(one, si, other, k - 1, row[k - 1])
    }
}

/// The crossings of the first `k` segments of a curve with all of another.
pub open spec fn curve_crossings(
    one: int,
    other: int,
    table: Seq<Vec<SegPair>>,
    k: int,
) -> Seq<SectionCrossing>
    decreases k,
{
    if k <= 0 {
        Seq::empty()
    } else {
        curve_crossings(one, other, table, k - 1) + row_crossings(
            one,
            k - 1,
            other,
            table[k - 1]@,
            table[k - 1]@.len() as int,
        )
    }
}

/// The crossings of a curve with those after it, up to curve `k`.
pub open spec fn later_crossings(one: int, tables: Seq<PairTable>, k: int) -> Seq<SectionCrossing>
    decreases k - one,
{
    if k <= one + 1 {
        Seq::empty()
    } else {
        later_crossings(one, tables, k - 1) + curve_crossings(
            one,
            k - 1,
            tables[k - 1]@,
            tables[k - 1]@.len() as int,
        )
    }
}

/// The crossings of the first `k` curves with those after them, over all pairs
/// of segments.
pub open spec fn crossings_among(pairs: Seq<Vec<PairTable>>, k: int) -> Seq<SectionCrossing>
    decreases k,
{
    if k <= 0 {
        Seq::empty()
    } else {
        crossings_among(pairs, k - 1) + later_crossings(
            k - 1,
            pairs[k - 1]@,
            pairs[k - 1]@.len() as int,
        )
    }
}

/// Where sections cross, over all pairs of segments of any two of them.
pub open spec fn all_crossings(pairs: Seq<Vec<PairTable>>) -> Seq<SectionCrossing> {
    crossings_among(pairs, pairs.len() as int)
}

/// How many segments a section has: none if it has no length, and one that leads
/// back if it is closed.
pub open spec fn segment_count(section: Section) -> int {
    if section.curve.points@.len() < 2 {
        0
    } else if section.curve.closed {
        section.curve.points@.len() as int
    } else {
        section.curve.points@.len() - 1
    }
}

/// Whether the segments of two curves are measured, each against each.
pub open spec fn table_fits(table: PairTable, one: Section, other: Section) -> bool {
    &&& table@.len() == segment_count(one)
    &&& forall|i: int|
        0 <= i < table@.len() ==> (#[trigger] table@[i])@.len() == segment_count(other)
}

/// Whether the segments of any two sections are measured, each against each.
pub open spec fn pairs_fit(pairs: Seq<Vec<PairTable>>, sections: Seq<Section>) -> bool {
    &&& pairs.len() == sections.len()
    &&& forall|i: int| 0 <= i < pairs.len() ==> (#[trigger] pairs[i])@.len() == sections.len()
    &&& forall|i: int, j: int|
        0 <= i < j < pairs.len() ==> table_fits(#[trigger] pairs[i]@[j], sections[i], sections[j])
}

/// Add the crossings of a segment with another curve.
fn push_row(
    out: &mut Vec<SectionCrossing>,
    one: usize,
    si: usize,
    other: usize,
    row: &Vec<SegPair>,
)
    ensures
        final(out)@ == old(out)@ + row_crossings(
            one as int,
            si as int,
            other as int,
            row@,
            row@.len() as int,
        ),
{
    let ghost before = out@;
    let mut sj: usize = 0;
    assert(out@ =~= before + Seq::empty());
    while sj < row.len()
        invariant
            sj <= row@.len(),
            out@ == before + row_crossings(one as int, si as int, other as int, row@, sj as int),
        decreases row@.len() - sj,
    {
        let pair = row[sj];
        let ghost so_far = out@;
        if let Some(places) = seg_cross(pair.meet) {
            out.push(
                SectionCrossing {
                    one,
                    on_one: Place { piece: si, along: places.0 },
                    other,
                    on_other: Place { piece: sj, along: places.1 },
                    point: pair.point,
                },
            );
        }
        assert(out@ =~= so_far + pair_crossing(
            one as int,
            si as int,
            other as int,
            sj as int,
            pair,
        ));
        sj = sj + 1;
        assert(out@ =~= before + row_crossings(
            one as int,
            si as int,
            other as int,
            row@,
            sj as int,
        ));
    }
}

/// Add the crossings of a curve with another.
fn push_curve(out: &mut Vec<SectionCrossing>, one: usize, other: usize, table: &PairTable)
    ensures
        final(out)@ == old(out)@ + curve_crossings(
            one as int,
            other as int,
            table@,
            table@.len() as int,
        ),
{
    let ghost before = out@;
    let mut si: usize = 0;
    assert(out@ =~= before + Seq::empty());
    while si < table.len()
        invariant
            si <= table@.len(),
            out@ == before + curve_crossings(one as int, other as int, table@, si as int),
        decreases table@.len() - si,
    {
        push_row(out, one, si, other, &table[si]);
        si = si + 1;
        assert(out@ =~= before + curve_crossings(one as int, other as int, table@, si as int));
    }
}

/// Where sections cross: every two of them are held against each other, segment
/// by segment; `pairs[i][j]` measures sections `i` and `j`, for `j` after `i`.
pub fn section_crossings(pairs: &[Vec<PairTable>]) -> (out: Vec<SectionCrossing>)
    ensures
        out@ == all_crossings(pairs@),
{
    let mut out: Vec<SectionCrossing> = Vec::new();
    let mut one: usize = 0;
    while one < pairs.len()
        invariant
            one <= pairs@.len(),
            out@ == crossings_among(pairs@, one as int),
        decreases pairs@.len() - one,
    {
        let tables = &pairs[one];
        let ghost before = out@;
        let mut other: usize = one + 1;
        assert(out@ =~= before + Seq::empty());
        while other < tables.len()
            invariant
                one < other,
                other <= tables@.len() || other == one + 1,
                out@ == before + later_crossings(one as int, tables@, other as int),
            decreases tables@.len() - other,
        {
            push_curve(&mut out, one, other, &tables[other]);
            other = other + 1;
            assert(out@ =~= before + later_crossings(one as int, tables@, other as int));
        }
        proof {
            if tables@.len() <= one + 1 {
                assert(later_crossings(one as int, tables@, tables@.len() as int) =~= Seq::empty());
            }
        }
        one = one + 1;
    }
    out
}

/// A crossing has places, and is of two different curves.
proof fn lemma_row_placed(one: int, si: int, other: int, row: Seq<SegPair>, k: int)
    requires
        0 <= k <= row.len(),
    ensures
        all_placed(row_crossings(one, si, other, row, k)),
    decreases k,
{
    if k > 0 {
        lemma_row_placed(one, si, other, row, k - 1);
        let m = row[k - 1].meet;
        let a = row_crossings(one, si, other, row, k - 1);
        let b = pair_crossing(one, si, other, k - 1, row[k - 1]);
        lemma_crossing_placed(m);
        lemma_placed_add(a, b);
    }
}

/// Whether crossings have places.
pub open spec fn all_placed(crossings: Seq<SectionCrossing>) -> bool {
    forall|i: int|
        0 <= i < crossings.len() ==> !(#[trigger] crossings[i]).on_one.along.nan()
            && !crossings[i].on_other.along.nan()
}

proof fn lemma_crossing_placed(m: SegMeet)
    ensures
        match crossing(m) {
            None => true,
            Some(places) => !places.0.nan() && !places.1.nan(),
        },
{
}

proof fn lemma_placed_add(a: Seq<SectionCrossing>, b: Seq<SectionCrossing>)
    requires
        all_placed(a),
        all_placed(b),
    ensures
        all_placed(a + b),
{
    let all = a + b;
    assert forall|i: int| 0 <= i < all.len() implies !(#[trigger] all[i]).on_one.along.nan()
        && !all[i].on_other.along.nan() by {
        if i < a.len() {
            assert(all[i] == a[i]);
        } else {
            assert(all[i] == b[i - a.len()]);
        }
    }
}

proof fn lemma_curve_placed(one: int, other: int, table: Seq<Vec<SegPair>>, k: int)
    requires
        0 <= k <= table.len(),
    ensures
        all_placed(curve_crossings(one, other, table, k)),
    decreases k,
{
    if k > 0 {
        let row = table[k - 1]@;
        lemma_curve_placed(one, other, table, k - 1);
        lemma_row_placed(one, k - 1, other, row, row.len() as int);
        lemma_placed_add(
            curve_crossings(one, other, table, k - 1),
            row_crossings(one, k - 1, other, row, row.len() as int),
        );
    }
}

proof fn lemma_later_placed(one: int, tables: Seq<PairTable>, k: int)
    requires
        0 <= one,
        k <= tables.len(),
    ensures
        all_placed(later_crossings(one, tables, k)),
    decreases k - one,
{
    if k > one + 1 {
        let table = tables[k - 1]@;
        lemma_later_placed(one, tables, k - 1);
        lemma_curve_placed(one, k - 1, table, table.len() as int);
        lemma_placed_add(
            later_crossings(one, tables, k - 1),
            curve_crossings(one, k - 1, table, table.len() as int),
        );
    }
}

/// Every crossing has a place on either curve.
pub proof fn lemma_crossings_placed(pairs: Seq<Vec<PairTable>>, k: int)
    requires
        0 <= k <= pairs.len(),
    ensures
        all_placed(crossings_among(pairs, k)),
    decreases k,
{
    if k > 0 {
        let tables = pairs[k - 1]@;
        lemma_crossings_placed(pairs, k - 1);
        lemma_later_placed(k - 1, tables, tables.len() as int);
        lemma_placed_add(
            crossings_among(pairs, k - 1),
            later_crossings(k - 1, tables, tables.len() as int),
        );
    }
}

/// A place where a curve is split.
#[derive(Clone, Copy, Debug, PartialEq, Eq, Structural)]
pub struct Cut {
    /// Where on the curve.
    pub place: Place,
    /// The point.
    pub point: Point3,
}

/// The cuts that the first `k` crossings make in a curve.
pub open spec fn cuts_in(crossings: Seq<SectionCrossing>, curve: usize, k: int) -> Seq<Cut>
    decreases k,
{
    if k <= 0 {
        Seq::empty()
    } else {
        let c = crossings[k - 1];
        let before = cuts_in(crossings, curve, k - 1);
        if c.one == curve {
            before.push(Cut { place: c.on_one, point: c.point })
        } else if c.other == curve {
            before.push(Cut { place: c.on_other, point: c.point })
        } else {
            before
        }
    }
}

/// The cuts that crossings make in a curve.
pub fn cuts_of(crossings: &[SectionCrossing], curve: usize) -> (cuts: Vec<Cut>)
    ensures
        cuts@ == cuts_in(crossings@, curve, crossings@.len() as int),
{
    let mut cuts: Vec<Cut> = Vec::new();
    let mut k: usize = 0;
    while k < crossings.len()
        invariant
            k <= crossings@.len(),
            cuts@ == cuts_in(crossings@, curve, k as int),
        decreases crossings@.len() - k,
    {
        let c = crossings[k];
        if c.one == curve {
            cuts.push(Cut { place: c.on_one, point: c.point });
        } else if c.other == curve {
            cuts.push(Cut { place: c.on_other, point: c.point });
        }
        k += 1;
    }
    cuts
}

/// A crossing cuts both of its curves at the same point.
pub proof fn law_crossing_cuts_both(crossings: Seq<SectionCrossing>, k: int, i: int)
    requires
        0 <= i < k <= crossings.len(),
        crossings[i].one != crossings[i].other,
    ensures
        cuts_in(crossings, crossings[i].one, k).contains(
            Cut { place: crossings[i].on_one, point: crossings[i].point },
        ),
        cuts_in(crossings, crossings[i].other, k).contains(
            Cut { place: crossings[i].on_other, point: crossings[i].point },
        ),
    decreases k,
{
    let c = crossings[i];
    let a = Cut { place: c.on_one, point: c.point };
    let b = Cut { place: c.on_other, point: c.point };
    let in_one = cuts_in(crossings, c.one, k);
    let in_other = cuts_in(crossings, c.other, k);
    if i == k - 1 {
        assert(in_one[in_one.len() - 1] == a);
        assert(in_other[in_other.len() - 1] == b);
    } else {
        law_crossing_cuts_both(crossings, k - 1, i);
        let s = cuts_in(crossings, c.one, k - 1);
        let t = cuts_in(crossings, c.other, k - 1);
        let x = choose|x: int| 0 <= x < s.len() && s[x] == a;
        let y = choose|y: int| 0 <= y < t.len() && t[y] == b;
        assert(in_one[x] == a);
        assert(in_other[y] == b);
    }
}

// ── Splitting ───────────────────────────────────────────────────────────────

/// What the splitting of one curve goes by.  Its nodes are the points of the
/// curve, then its cuts.
pub struct SplitCase {
    /// The squared distances between nodes.
    pub squares: Seq<Vec<Real>>,
    /// Cuts nearer than this to the point before them add none.
    pub tol2: Real,
    /// Where each cut is.
    pub places: Seq<Place>,
    /// The cuts in order.
    pub list: Seq<usize>,
    /// How many points the curve has.
    pub n: int,
}

/// A curve being split: what is finished, the run under way, and the next cut.
#[verifier::ext_equal]
pub struct SplitState {
    pub pieces: Seq<Seq<usize>>,
    pub run: Seq<usize>,
    pub next: int,
}

/// The run is ended at a cut and the next one started there.
pub open spec fn cut_at(case: SplitCase, s: SplitState, x: usize) -> SplitState {
    let run = if case.tol2.below(case.squares[s.run.last() as int]@[x as int]) {
        s.run.push(x)
    } else {
        s.run
    };
    SplitState {
        pieces: if run.len() >= 2 {
            s.pieces.push(run)
        } else {
            s.pieces
        },
        run: seq![x],
        next: s.next + 1,
    }
}

/// The run is ended at each of the next cuts that are on a piece of the curve.
pub open spec fn cuts_on(case: SplitCase, s: SplitState, piece: int) -> SplitState
    decreases case.list.len() - s.next,
{
    if 0 <= s.next < case.list.len() && case.places[case.list[s.next] as int].piece == piece {
        cuts_on(case, cut_at(case, s, (case.n + case.list[s.next]) as usize), piece)
    } else {
        s
    }
}

/// The run goes on to a point of the curve, unless it is there already.
pub open spec fn run_on(case: SplitCase, s: SplitState, x: int) -> SplitState {
    if (Real { bits: NO_LENGTH }).below(case.squares[s.run.last() as int]@[x]) {
        SplitState { run: s.run.push(x as usize), ..s }
    } else {
        s
    }
}

/// The curve split up to point `k`.
pub open spec fn split_to(case: SplitCase, k: int) -> SplitState
    decreases k,
{
    if k <= 0 {
        SplitState { pieces: Seq::empty(), run: seq![0usize], next: 0 }
    } else {
        run_on(case, cuts_on(case, split_to(case, k - 1), k - 1), k)
    }
}

/// The pieces of the whole curve.
pub open spec fn open_pieces(case: SplitCase) -> Seq<Seq<usize>> {
    let s = split_to(case, case.n - 1);
    if s.run.len() >= 2 {
        s.pieces.push(s.run)
    } else {
        s.pieces
    }
}

/// The pieces of a curve; of a loop, the last goes on into the first.
pub open spec fn pieces_of(case: SplitCase, closed: bool) -> Seq<Seq<usize>> {
    let pieces = open_pieces(case);
    if closed && pieces.len() >= 2 {
        let joined = pieces.last() + pieces.first().subrange(1, pieces.first().len() as int);
        pieces.subrange(1, pieces.len() - 1).push(joined)
    } else {
        pieces
    }
}

/// Whether a state holds nodes only, pieces of at least two, each starting at
/// the start of the curve or at a cut.
pub open spec fn sound_split(case: SplitCase, s: SplitState) -> bool {
    &&& s.run.len() > 0
    &&& all_below(s.run, case.n + case.places.len())
    &&& s.run[0] == 0 || s.run[0] >= case.n
    &&& 0 <= s.next <= case.list.len()
    &&& forall|i: int|
        0 <= i < s.pieces.len() ==> sound_piece(case, #[trigger] s.pieces[i])
}

/// Whether a piece is of at least two nodes and starts at the start of the
/// curve or at a cut.
pub open spec fn sound_piece(case: SplitCase, piece: Seq<usize>) -> bool {
    piece.len() >= 2 && all_below(piece, case.n + case.places.len()) && (piece[0] == 0 || piece[0]
        >= case.n)
}

/// Whether the tables of a case fit.
pub open spec fn case_fits(case: SplitCase) -> bool {
    case.n >= 2 && case.n + case.places.len() <= usize::MAX && all_below(
        case.list,
        case.places.len() as int,
    ) && covers(case.squares, case.n + case.places.len())
}

proof fn lemma_cut_at(case: SplitCase, s: SplitState)
    requires
        case_fits(case),
        sound_split(case, s),
        0 <= s.next < case.list.len(),
    ensures
        sound_split(case, cut_at(case, s, (case.n + case.list[s.next]) as usize)),
        case.n + case.list[s.next] < case.n + case.places.len(),
{
    let x = (case.n + case.list[s.next]) as usize;
    assert(case.list[s.next] < case.places.len());
    let t = cut_at(case, s, x);
    let run = if case.tol2.below(case.squares[s.run.last() as int]@[x as int]) {
        s.run.push(x)
    } else {
        s.run
    };
    assert(all_below(run, case.n + case.places.len())) by {
        assert forall|i: int| 0 <= i < run.len() implies (#[trigger] run[i]) < case.n
            + case.places.len() by {
            if i < s.run.len() {
                assert(run[i] == s.run[i]);
            }
        }
    }
    assert(run[0] == s.run[0]);
    assert forall|i: int| 0 <= i < t.pieces.len() implies sound_piece(
        case,
        #[trigger] t.pieces[i],
    ) by {
        if i < s.pieces.len() {
            assert(t.pieces[i] == s.pieces[i]);
        } else {
            assert(t.pieces[i] == run);
        }
    }
}

proof fn lemma_cuts_on(case: SplitCase, s: SplitState, piece: int)
    requires
        case_fits(case),
        sound_split(case, s),
    ensures
        sound_split(case, cuts_on(case, s, piece)),
    decreases case.list.len() - s.next,
{
    if 0 <= s.next < case.list.len() && case.places[case.list[s.next] as int].piece == piece {
        lemma_cut_at(case, s);
        lemma_cuts_on(case, cut_at(case, s, (case.n + case.list[s.next]) as usize), piece);
    }
}

proof fn lemma_run_on(case: SplitCase, s: SplitState, x: int)
    requires
        case_fits(case),
        sound_split(case, s),
        0 <= x < case.n,
    ensures
        sound_split(case, run_on(case, s, x)),
{
    let t = run_on(case, s, x);
    assert(t.run[0] == s.run[0]);
    assert forall|i: int| 0 <= i < t.run.len() implies (#[trigger] t.run[i]) < case.n
        + case.places.len() by {
        if i < s.run.len() {
            assert(t.run[i] == s.run[i]);
        }
    }
}

/// Every piece that a curve is split into has at least two nodes and starts at
/// the start of the curve or at a cut.
pub proof fn law_pieces_start_at_cuts(case: SplitCase, i: int)
    requires
        case_fits(case),
        0 <= i < open_pieces(case).len(),
    ensures
        sound_piece(case, open_pieces(case)[i]),
{
    lemma_split_to(case, case.n - 1);
    let s = split_to(case, case.n - 1);
    if i < s.pieces.len() {
        assert(open_pieces(case)[i] == s.pieces[i]);
    }
}

proof fn lemma_split_to(case: SplitCase, k: int)
    requires
        case_fits(case),
        0 <= k < case.n,
    ensures
        sound_split(case, split_to(case, k)),
    decreases k,
{
    if k > 0 {
        lemma_split_to(case, k - 1);
        lemma_cuts_on(case, split_to(case, k - 1), k - 1);
        lemma_run_on(case, cuts_on(case, split_to(case, k - 1), k - 1), k);
    }
}

/// Pieces as plain sequences.
pub open spec fn piece_views(pieces: Seq<Vec<usize>>) -> Seq<Seq<usize>> {
    Seq::new(pieces.len(), |i: int| pieces[i]@)
}

/// Split a curve at its cuts.
fn split_curve(
    squares: &Vec<Vec<Real>>,
    tol2: Real,
    places: &[Place],
    list: &[usize],
    n: usize,
    closed: bool,
) -> (pieces: Vec<Vec<usize>>)
    requires
        case_fits(
            SplitCase { squares: squares@, tol2, places: places@, list: list@, n: n as int },
        ),
    ensures
        piece_views(pieces@) == pieces_of(
            SplitCase { squares: squares@, tol2, places: places@, list: list@, n: n as int },
            closed,
        ),
        forall|i: int|
            0 <= i < pieces@.len() ==> all_below((#[trigger] pieces@[i])@, n + places@.len()),
{
    let ghost case = SplitCase {
        squares: squares@,
        tol2,
        places: places@,
        list: list@,
        n: n as int,
    };
    let ghost total = n + places@.len();
    let mut pieces: Vec<Vec<usize>> = Vec::new();
    let mut run: Vec<usize> = Vec::new();
    run.push(0);
    let mut next: usize = 0;
    let mut k: usize = 1;
    assert(run@ =~= seq![0usize]);
    assert(piece_views(pieces@) =~= Seq::empty());
    assert(split_to(case, 0) == SplitState {
        pieces: piece_views(pieces@),
        run: run@,
        next: next as int,
    });
    while k < n
        invariant
            case_fits(case),
            case == (SplitCase {
                squares: squares@,
                tol2,
                places: places@,
                list: list@,
                n: n as int,
            }),
            total == n + places@.len(),
            1 <= k <= n,
            split_to(case, k - 1) == (SplitState {
                pieces: piece_views(pieces@),
                run: run@,
                next: next as int,
            }),
        decreases n - k,
    {
        proof {
            lemma_split_to(case, k - 1);
        }
        let ghost goal = cuts_on(case, split_to(case, k - 1), k - 1);
        while next < list.len() && places[list[next]].piece == k - 1
            invariant
                case_fits(case),
                case == (SplitCase {
                    squares: squares@,
                    tol2,
                    places: places@,
                    list: list@,
                    n: n as int,
                }),
                total == n + places@.len(),
                1 <= k < n,
                next < list@.len() ==> list@[next as int] < places@.len(),
                sound_split(
                    case,
                    (SplitState { pieces: piece_views(pieces@), run: run@, next: next as int }),
                ),
                goal == cuts_on(
                    case,
                    (SplitState { pieces: piece_views(pieces@), run: run@, next: next as int }),
                    k - 1,
                ),
            decreases list@.len() - next,
        {
            let ghost before = SplitState {
                pieces: piece_views(pieces@),
                run: run@,
                next: next as int,
            };
            proof {
                lemma_cut_at(case, before);
            }
            let x: usize = n + list[next];
            let last: usize = run[run.len() - 1];
            assert(run@.last() == last && last < total);
            assert(squares@[last as int]@.len() >= total);
            if squares[last][x].gt(tol2) {
                run.push(x);
            }
            let ghost old_pieces = pieces@;
            let ghost ended = run@;
            if run.len() >= 2 {
                pieces.push(run);
                assert(piece_views(pieces@) =~= piece_views(old_pieces).push(ended));
            }
            run = Vec::new();
            run.push(x);
            assert(run@ =~= seq![x]);
            next += 1;
            assert(cut_at(case, before, x) == SplitState {
                pieces: piece_views(pieces@),
                run: run@,
                next: next as int,
            });
            assert(next < list@.len() ==> list@[next as int] < places@.len());
        }
        let last: usize = run[run.len() - 1];
        assert(run@.last() == last && last < total);
        assert(squares@[last as int]@.len() >= total);
        if squares[last][k].gt(Real { bits: NO_LENGTH }) {
            run.push(k);
        }
        k += 1;
    }
    proof {
        lemma_split_to(case, n - 1);
    }
    let ghost old_pieces = pieces@;
    let ghost ended = run@;
    if run.len() >= 2 {
        pieces.push(run);
        assert(piece_views(pieces@) =~= piece_views(old_pieces).push(ended));
    }
    let ghost all = open_pieces(case);
    assert(piece_views(pieces@) == all);
    assert forall|i: int| 0 <= i < pieces@.len() implies all_below(
        (#[trigger] pieces@[i])@,
        total,
    ) && pieces@[i]@.len() >= 2 by {
        law_pieces_start_at_cuts(case, i);
        assert(all[i] == pieces@[i]@);
    }
    if closed && pieces.len() >= 2 {
        let ghost listed = pieces@;
        let mut joined = pieces.pop().unwrap();
        let first = pieces.remove(0);
        assert(all.last() == joined@);
        assert(all.first() == first@);
        let ghost tail = joined@;
        let mut j: usize = 1;
        assert(joined@ =~= tail + first@.subrange(1, 1));
        while j < first.len()
            invariant
                first@.len() >= 2,
                1 <= j <= first@.len(),
                joined@ == tail + first@.subrange(1, j as int),
                all_below(tail, total),
                all_below(first@, total),
            decreases first@.len() - j,
        {
            joined.push(first[j]);
            j += 1;
            assert(joined@ =~= tail + first@.subrange(1, j as int));
        }
        let ghost whole = joined@;
        assert(all_below(whole, total)) by {
            assert forall|i: int| 0 <= i < whole.len() implies (#[trigger] whole[i]) < total by {
                if i < tail.len() {
                    assert(whole[i] == tail[i]);
                } else {
                    assert(whole[i] == first@[i - tail.len() + 1]);
                }
            }
        }
        let ghost middle = pieces@;
        pieces.push(joined);
        assert(piece_views(pieces@) =~= pieces_of(case, closed));
        assert forall|i: int| 0 <= i < pieces@.len() implies all_below(
            (#[trigger] pieces@[i])@,
            total,
        ) by {
            if i < middle.len() {
                assert(pieces@[i] == listed[i + 1]);
            }
        }
    }
    pieces
}

/// A section curve and the face that it is on.
#[derive(Clone, Debug)]
pub struct Section {
    /// The face.
    pub owner: FaceId,
    /// The curve.
    pub curve: SsiCurve,
}

/// What a section is.
#[verifier::ext_equal]
pub struct SectionView {
    pub owner: FaceId,
    pub curve: CurveView,
}

impl Section {
    /// What the section is.
    pub open spec fn view(&self) -> SectionView {
        SectionView { owner: self.owner, curve: self.curve@ }
    }
}

/// What each of several sections is.
pub open spec fn section_views(sections: Seq<Section>) -> Seq<SectionView> {
    Seq::new(sections.len(), |i: int| sections[i]@)
}

/// What was measured of a section curve.
#[derive(Clone, Debug)]
pub struct SplitSheet {
    /// Its points, brought onto the plane.
    pub flat: Vec<Point3>,
    /// The distances between its cuts.
    pub apart: Vec<Vec<Real>>,
    /// The squared distances between its nodes: its points, the first again
    /// if it is a loop, and its cuts.
    pub squares: Vec<Vec<Real>>,
}

/// How many nodes of a curve are points of it.
pub open spec fn point_nodes(flat: Seq<Point3>, closed: bool) -> int {
    flat.len() + if closed {
        1int
    } else {
        0
    }
}

/// The point of a node.
pub open spec fn node_point(flat: Seq<Point3>, closed: bool, cuts: Seq<Cut>, x: int) -> Point3 {
    if x < flat.len() {
        flat[x]
    } else if x < point_nodes(flat, closed) {
        flat[0]
    } else {
        cuts[x - point_nodes(flat, closed)].point
    }
}

/// Where each cut is.
pub open spec fn cut_places(cuts: Seq<Cut>) -> Seq<Place> {
    Seq::new(cuts.len(), |i: int| cuts[i].place)
}

/// The cuts in order along the curve, each spot once.
pub open spec fn cuts_in_order(cuts: Seq<Cut>, apart: Seq<Vec<Real>>, tol: Real) -> Seq<usize> {
    let sorted = ordered(cut_places(cuts), counting(cuts.len() as int));
    thinned(apart, Apart::NotBelow(tol), sorted, sorted.len() as int)
}

/// How a curve is split at its cuts.
pub open spec fn split_case(
    sheet: SplitSheet,
    closed: bool,
    cuts: Seq<Cut>,
    tol: Real,
    tol2: Real,
) -> SplitCase {
    SplitCase {
        squares: sheet.squares@,
        tol2,
        places: cut_places(cuts),
        list: cuts_in_order(cuts, sheet.apart@, tol),
        n: point_nodes(sheet.flat@, closed),
    }
}

/// The points of a piece.
pub open spec fn piece_points(
    flat: Seq<Point3>,
    closed: bool,
    cuts: Seq<Cut>,
    piece: Seq<usize>,
) -> Seq<Point3> {
    Seq::new(piece.len(), |i: int| node_point(flat, closed, cuts, piece[i] as int))
}

/// What becomes of a section: nothing of a curve without length, the curve if
/// nothing crosses it, or its pieces.
pub open spec fn split_section(
    section: Section,
    sheet: SplitSheet,
    cuts: Seq<Cut>,
    tol: Real,
    tol2: Real,
) -> Seq<SectionView> {
    let closed = section.curve.closed;
    if section.curve.points@.len() < 2 {
        Seq::empty()
    } else if cuts.len() == 0 {
        seq![
            SectionView {
                owner: section.owner,
                curve: CurveView { points: sheet.flat@, closed },
            },
        ]
    } else {
        let pieces = pieces_of(split_case(sheet, closed, cuts, tol, tol2), closed);
        Seq::new(
            pieces.len(),
            |i: int|
                SectionView {
                    owner: section.owner,
                    curve: CurveView {
                        points: piece_points(sheet.flat@, closed, cuts, pieces[i]),
                        closed: false,
                    },
                },
        )
    }
}

/// What becomes of the first `k` sections.
pub open spec fn split_sections(
    sections: Seq<Section>,
    sheets: Seq<SplitSheet>,
    crossings: Seq<SectionCrossing>,
    tol: Real,
    tol2: Real,
    k: int,
) -> Seq<SectionView>
    decreases k,
{
    if k <= 0 {
        Seq::empty()
    } else {
        split_sections(sections, sheets, crossings, tol, tol2, k - 1) + split_section(
            sections[k - 1],
            sheets[k - 1],
            cuts_in(crossings, (k - 1) as usize, crossings.len() as int),
            tol,
            tol2,
        )
    }
}

/// The sections split where they cross; as they are if none do.
pub open spec fn presplit(
    sections: Seq<Section>,
    sheets: Seq<SplitSheet>,
    crossings: Seq<SectionCrossing>,
    tol: Real,
    tol2: Real,
) -> Seq<SectionView> {
    if crossings.len() == 0 {
        section_views(sections)
    } else {
        split_sections(sections, sheets, crossings, tol, tol2, sections.len() as int)
    }
}

/// Whether a sheet fits its curve and its cuts.
pub open spec fn sheet_fits(section: Section, sheet: SplitSheet, cuts: Seq<Cut>) -> bool {
    &&& sheet.flat@.len() == section.curve.points@.len()
    &&& covers(sheet.apart@, cuts.len() as int)
    &&& covers(
        sheet.squares@,
        point_nodes(sheet.flat@, section.curve.closed) + cuts.len(),
    )
}

/// Whether the sheets fit.
pub open spec fn sections_measured(
    sections: Seq<Section>,
    sheets: Seq<SplitSheet>,
    crossings: Seq<SectionCrossing>,
) -> bool {
    &&& sheets.len() == sections.len()
    &&& forall|i: int|
        0 <= i < sections.len() ==> sheet_fits(
            #[trigger] sections[i],
            sheets[i],
            cuts_in(crossings, i as usize, crossings.len() as int),
        )
}

proof fn lemma_cuts_are_placed(crossings: Seq<SectionCrossing>, curve: usize, k: int)
    requires
        0 <= k <= crossings.len(),
        all_placed(crossings),
    ensures
        forall|i: int|
            0 <= i < cuts_in(crossings, curve, k).len() ==> !(#[trigger] cuts_in(
                crossings,
                curve,
                k,
            )[i]).place.along.nan(),
    decreases k,
{
    if k > 0 {
        lemma_cuts_are_placed(crossings, curve, k - 1);
        let before = cuts_in(crossings, curve, k - 1);
        let now = cuts_in(crossings, curve, k);
        assert(!crossings[k - 1].on_one.along.nan());
        assert forall|i: int| 0 <= i < now.len() implies !(#[trigger] now[i]).place.along.nan() by {
            if i < before.len() {
                assert(now[i] == before[i]);
            }
        }
    }
}

/// A copy of a curve's points with a flag.
fn flat_curve(points: &[Point3], closed: bool) -> (curve: SsiCurve)
    ensures
        curve@ == (CurveView { points: points@, closed }),
{
    let every = count_up(points.len());
    let copy = pick_points(points, &every);
    assert(copy@ =~= points@);
    SsiCurve { points: copy, closed }
}

/// What becomes of one section.
fn split_one(
    section: &Section,
    sheet: &SplitSheet,
    cuts: &[Cut],
    tol: Real,
    tol2: Real,
) -> (out: Vec<Section>)
    requires
        sheet_fits(*section, *sheet, cuts@),
        forall|i: int| 0 <= i < cuts@.len() ==> !(#[trigger] cuts@[i]).place.along.nan(),
    ensures
        section_views(out@) == split_section(*section, *sheet, cuts@, tol, tol2),
{
    let closed = section.curve.closed;
    let mut out: Vec<Section> = Vec::new();
    if section.curve.points.len() < 2 {
        assert(section_views(out@) =~= Seq::empty());
        return out;
    }
    if cuts.len() == 0 {
        out.push(Section { owner: section.owner, curve: flat_curve(&sheet.flat, closed) });
        assert(section_views(out@) =~= split_section(*section, *sheet, cuts@, tol, tol2));
        return out;
    }
    let m: usize = cuts.len();
    let limit: usize = sheet.squares.len();
    let n: usize = if closed {
        sheet.flat.len() + 1
    } else {
        sheet.flat.len()
    };
    let mut spots: Vec<Place> = Vec::new();
    let mut i: usize = 0;
    while i < m
        invariant
            m == cuts@.len(),
            i <= m,
            spots@ == cut_places(cuts@).subrange(0, i as int),
        decreases m - i,
    {
        spots.push(cuts[i].place);
        i += 1;
        assert(spots@ =~= cut_places(cuts@).subrange(0, i as int));
    }
    assert(spots@ =~= cut_places(cuts@));
    let every = count_up(m);
    assert(placed(spots@, every@)) by {
        assert forall|j: int| 0 <= j < every@.len() implies (#[trigger] every@[j]) < spots@.len()
            && !spots@[every@[j] as int].along.nan() by {
            assert(!cuts@[j].place.along.nan());
        }
    }
    let sorted = arrange_places(&spots, &every);
    assert(all_below(sorted@, m as int)) by {
        assert forall|j: int| 0 <= j < sorted@.len() implies (#[trigger] sorted@[j]) < m by {
            assert(sorted@.contains(sorted@[j]));
            assert(every@.contains(sorted@[j]));
        }
    }
    let list = thin(&sheet.apart, Apart::NotBelow(tol), &sorted);
    proof {
        lemma_thinned(
            sheet.apart@,
            Apart::NotBelow(tol),
            sorted@,
            sorted@.len() as int,
            m as int,
        );
    }
    let ghost case = split_case(*sheet, closed, cuts@, tol, tol2);
    assert(case_fits(case));
    let pieces = split_curve(&sheet.squares, tol2, &spots, &list, n, closed);
    let ghost whole = split_section(*section, *sheet, cuts@, tol, tol2);
    let ghost parts = pieces_of(case, closed);
    let mut k: usize = 0;
    assert(section_views(out@) =~= whole.subrange(0, 0));
    while k < pieces.len()
        invariant
            sheet_fits(*section, *sheet, cuts@),
            closed == section.curve.closed,
            sheet.flat@.len() >= 2,
            n == point_nodes(sheet.flat@, closed),
            m == cuts@.len(),
            n + m <= usize::MAX,
            parts == pieces_of(split_case(*sheet, closed, cuts@, tol, tol2), closed),
            parts == piece_views(pieces@),
            whole == split_section(*section, *sheet, cuts@, tol, tol2),
            cuts@.len() > 0,
            section.curve.points@.len() >= 2,
            forall|i: int|
                0 <= i < pieces@.len() ==> all_below((#[trigger] pieces@[i])@, n + m),
            k <= pieces@.len(),
            section_views(out@) == whole.subrange(0, k as int),
        decreases pieces@.len() - k,
    {
        let piece: &Vec<usize> = &pieces[k];
        assert(all_below(piece@, n + m));
        let ghost pts = piece_points(sheet.flat@, closed, cuts@, piece@);
        let mut points: Vec<Point3> = Vec::new();
        let mut j: usize = 0;
        while j < piece.len()
            invariant
                all_below(piece@, n + m),
                sheet.flat@.len() >= 2,
                n == point_nodes(sheet.flat@, closed),
                m == cuts@.len(),
                pts == piece_points(sheet.flat@, closed, cuts@, piece@),
                j <= piece@.len(),
                points@ == pts.subrange(0, j as int),
            decreases piece@.len() - j,
        {
            let x: usize = piece[j];
            assert(piece@[j as int] < n + m);
            if x < sheet.flat.len() {
                points.push(sheet.flat[x]);
            } else if x < n {
                points.push(sheet.flat[0]);
            } else {
                points.push(cuts[x - n].point);
            }
            j += 1;
            assert(points@ =~= pts.subrange(0, j as int));
        }
        assert(points@ =~= pts);
        let ghost before = out@;
        let next = Section { owner: section.owner, curve: SsiCurve { points, closed: false } };
        out.push(next);
        assert(section_views(out@) =~= section_views(before).push(next@));
        assert(parts[k as int] == piece@);
        assert(whole[k as int] == next@);
        k += 1;
        assert(section_views(out@) =~= whole.subrange(0, k as int));
    }
    assert(section_views(out@) =~= whole);
    out
}

/// Split every section curve where it crosses another, so that all who use it
/// are handed the same pieces. `pairs[i][j]` measures the segments of sections
/// `i` and `j` against each other, for `j` after `i`; the sheets go by the
/// crossings that [`section_crossings`] finds among these.
pub fn presplit_sections(
    sections: Vec<Section>,
    sheets: &[SplitSheet],
    pairs: &[Vec<PairTable>],
    tol: Real,
    tol2: Real,
) -> (out: Vec<Section>)
    requires
        pairs_fit(pairs@, sections@),
        sections_measured(sections@, sheets@, all_crossings(pairs@)),
    ensures
        section_views(out@) == presplit(sections@, sheets@, all_crossings(pairs@), tol, tol2),
{
    let crossings = section_crossings(pairs);
    if crossings.len() == 0 {
        return sections;
    }
    proof {
        lemma_crossings_placed(pairs@, pairs@.len() as int);
    }
    let mut out: Vec<Section> = Vec::new();
    let mut k: usize = 0;
    assert(section_views(out@) =~= Seq::empty());
    while k < sections.len()
        invariant
            sections_measured(sections@, sheets@, crossings@),
            all_placed(crossings@),
            k <= sections@.len(),
            section_views(out@) == split_sections(
                sections@,
                sheets@,
                crossings@,
                tol,
                tol2,
                k as int,
            ),
        decreases sections@.len() - k,
    {
        let cuts = cuts_of(&crossings, k);
        let n: usize = crossings.len();
        proof {
            assert(sheet_fits(sections@[k as int], sheets@[k as int], cuts@));
            lemma_cuts_are_placed(crossings@, k, n as int);
        }
        let mut more = split_one(&sections[k], &sheets[k], &cuts, tol, tol2);
        let ghost before = out@;
        let ghost added = more@;
        out.append(&mut more);
        assert(section_views(out@) =~= section_views(before) + section_views(added));
        k += 1;
    }
    out
}

// ── Loops ───────────────────────────────────────────────────────────────────

/// A curve followed from end to end, forwards or backwards.
#[derive(Clone, Copy, Debug, PartialEq, Eq, Structural)]
pub struct Hop {
    /// The number of the curve.
    pub arc: usize,
    /// Whether it is followed backwards.
    pub back: bool,
}

/// The end at which a hop starts; ends are numbered curve by curve, the start
/// of a curve before its end.
pub open spec fn hop_start(h: Hop) -> int {
    if h.back {
        2 * h.arc + 1
    } else {
        2 * h.arc
    }
}

/// The end at which a hop ends.
pub open spec fn hop_end(h: Hop) -> int {
    if h.back {
        2 * h.arc as int
    } else {
        2 * h.arc + 1
    }
}

/// Whether two ends meet.
pub open spec fn ends_meet(gaps: Seq<Vec<Real>>, tol: Real, a: int, b: int) -> bool {
    gaps[a]@[b].at_most(tol)
}

/// Whether a curve runs back to its start.
pub open spec fn comes_back(curves: Seq<SsiCurve>, gaps: Seq<Vec<Real>>, tol: Real, c: int) -> bool {
    ends_meet(gaps, tol, 2 * c, 2 * c + 1) && curves[c].points@.len() >= 3
}

/// The curves among the first `k` that are loops of their own, without a
/// repeated last point.
pub open spec fn whole_loops(
    curves: Seq<SsiCurve>,
    gaps: Seq<Vec<Real>>,
    tol: Real,
    k: int,
) -> Seq<Seq<Point3>>
    decreases k,
{
    if k <= 0 {
        Seq::empty()
    } else {
        let before = whole_loops(curves, gaps, tol, k - 1);
        let c = curves[k - 1];
        if c.points@.len() < 2 {
            before
        } else if comes_back(curves, gaps, tol, k - 1) {
            before.push(c.points@.drop_last())
        } else if c.closed {
            before.push(c.points@)
        } else {
            before
        }
    }
}

/// The curves among the first `k` that are open arcs.
pub open spec fn open_arcs(
    curves: Seq<SsiCurve>,
    gaps: Seq<Vec<Real>>,
    tol: Real,
    k: int,
) -> Seq<usize>
    decreases k,
{
    if k <= 0 {
        Seq::empty()
    } else {
        let before = open_arcs(curves, gaps, tol, k - 1);
        let c = curves[k - 1];
        if c.points@.len() < 2 || comes_back(curves, gaps, tol, k - 1) || c.closed {
            before
        } else {
            before.push((k - 1) as usize)
        }
    }
}

/// The points of a hop in the order followed.
pub open spec fn hop_points(curves: Seq<SsiCurve>, h: Hop) -> Seq<Point3> {
    if h.back {
        curves[h.arc as int].points@.reverse()
    } else {
        curves[h.arc as int].points@
    }
}

/// The points along the first `k` hops: each starts where the one before ends.
pub open spec fn hops_points(curves: Seq<SsiCurve>, hops: Seq<Hop>, k: int) -> Seq<Point3>
    decreases k,
{
    if k <= 0 {
        Seq::empty()
    } else {
        let pts = hop_points(curves, hops[k - 1]);
        if k == 1 {
            pts
        } else {
            hops_points(curves, hops, k - 1) + pts.subrange(1, pts.len() as int)
        }
    }
}

/// The first unused arc from place `p` on that starts or ends at an end, as it
/// would be followed from there.
pub open spec fn next_hop(
    arcs: Seq<usize>,
    gaps: Seq<Vec<Real>>,
    tol: Real,
    used: Seq<bool>,
    tail: int,
    p: int,
) -> Option<(int, Hop)>
    decreases arcs.len() - p,
{
    if p >= arcs.len() || p < 0 {
        None
    } else if used[p] {
        next_hop(arcs, gaps, tol, used, tail, p + 1)
    } else if ends_meet(gaps, tol, tail, 2 * arcs[p] as int) {
        Some((p, Hop { arc: arcs[p], back: false }))
    } else if ends_meet(gaps, tol, tail, 2 * arcs[p] + 1) {
        Some((p, Hop { arc: arcs[p], back: true }))
    } else {
        next_hop(arcs, gaps, tol, used, tail, p + 1)
    }
}

/// Whether a chain of hops ends where it started, with points enough for a
/// loop.
pub open spec fn chain_closes(
    curves: Seq<SsiCurve>,
    gaps: Seq<Vec<Real>>,
    tol: Real,
    hops: Seq<Hop>,
) -> bool {
    ends_meet(gaps, tol, hop_end(hops.last()), hop_start(hops.first())) && hops_points(
        curves,
        hops,
        hops.len() as int,
    ).len() >= 3
}

/// A chain followed until it closes or nothing more can be added: which arcs
/// are used by then, and the chain if it closed.
pub open spec fn followed(
    curves: Seq<SsiCurve>,
    arcs: Seq<usize>,
    gaps: Seq<Vec<Real>>,
    tol: Real,
    used: Seq<bool>,
    hops: Seq<Hop>,
) -> (Seq<bool>, Option<Seq<Hop>>)
    decreases arcs.len() - hops.len(),
{
    if chain_closes(curves, gaps, tol, hops) {
        (used, Some(hops))
    } else if hops.len() >= arcs.len() {
        (used, None)
    } else {
        match next_hop(arcs, gaps, tol, used, hop_end(hops.last()), 0) {
            None => (used, None),
            Some((p, h)) => followed(
                curves,
                arcs,
                gaps,
                tol,
                used.update(p, true),
                hops.push(h),
            ),
        }
    }
}

/// How far the chaining has come: which arcs are used, and the closed chains.
#[verifier::ext_equal]
pub struct Chaining {
    pub used: Seq<bool>,
    pub chains: Seq<Seq<Hop>>,
}

/// The chaining after a chain has been started from each of the first `k` arcs
/// that was still unused.
pub open spec fn chained(
    curves: Seq<SsiCurve>,
    arcs: Seq<usize>,
    gaps: Seq<Vec<Real>>,
    tol: Real,
    k: int,
) -> Chaining
    decreases k,
{
    if k <= 0 {
        Chaining { used: Seq::new(arcs.len(), |i: int| false), chains: Seq::empty() }
    } else {
        let s = chained(curves, arcs, gaps, tol, k - 1);
        if s.used[k - 1] {
            s
        } else {
            let r = followed(
                curves,
                arcs,
                gaps,
                tol,
                s.used.update(k - 1, true),
                seq![Hop { arc: arcs[k - 1], back: false }],
            );
            Chaining {
                used: r.0,
                chains: match r.1 {
                    Some(hops) => s.chains.push(hops),
                    None => s.chains,
                },
            }
        }
    }
}

/// The loops of a section: curves that are loops, then closed chains of arcs.
pub open spec fn loops_found(curves: Seq<SsiCurve>, gaps: Seq<Vec<Real>>, tol: Real) -> Seq<
    Seq<Point3>,
> {
    let arcs = open_arcs(curves, gaps, tol, curves.len() as int);
    let chains = chained(curves, arcs, gaps, tol, arcs.len() as int).chains;
    whole_loops(curves, gaps, tol, curves.len() as int) + Seq::new(
        chains.len(),
        |i: int| hops_points(curves, chains[i], chains[i].len() as int),
    )
}

/// Loops as plain sequences.
pub open spec fn loop_views(loops: Seq<Vec<Point3>>) -> Seq<Seq<Point3>> {
    Seq::new(loops.len(), |i: int| loops[i]@)
}

proof fn lemma_open_arcs(curves: Seq<SsiCurve>, gaps: Seq<Vec<Real>>, tol: Real, k: int)
    requires
        0 <= k <= curves.len() <= usize::MAX,
    ensures
        all_below(open_arcs(curves, gaps, tol, k), k),
        ascending(open_arcs(curves, gaps, tol, k)),
        forall|i: int|
            0 <= i < open_arcs(curves, gaps, tol, k).len() ==> curves[(#[trigger] open_arcs(
                curves,
                gaps,
                tol,
                k,
            )[i]) as int].points@.len() >= 2,
    decreases k,
{
    if k > 0 {
        lemma_open_arcs(curves, gaps, tol, k - 1);
    }
}

/// What `next_hop` finds.
proof fn lemma_next_hop(
    arcs: Seq<usize>,
    gaps: Seq<Vec<Real>>,
    tol: Real,
    used: Seq<bool>,
    tail: int,
    p: int,
)
    requires
        0 <= p <= arcs.len(),
        used.len() == arcs.len(),
    ensures
        match next_hop(arcs, gaps, tol, used, tail, p) {
            None => true,
            Some((q, h)) => p <= q < arcs.len() && !used[q] && h.arc == arcs[q] && ends_meet(
                gaps,
                tol,
                tail,
                hop_start(h),
            ),
        },
    decreases arcs.len() - p,
{
    if p < arcs.len() {
        if used[p] || !(ends_meet(gaps, tol, tail, 2 * arcs[p] as int) || ends_meet(
            gaps,
            tol,
            tail,
            2 * arcs[p] + 1,
        )) {
            lemma_next_hop(arcs, gaps, tol, used, tail, p + 1);
        }
    }
}

/// Whether the gaps between all ends of the curves were measured.
pub open spec fn gaps_measured(gaps: Seq<Vec<Real>>, n: int) -> bool {
    covers(gaps, 2 * n)
}

/// Add the points of a hop, from its `skip`-th on, to those of a chain.
fn follow_hop(points: &mut Vec<Point3>, curve: &[Point3], back: bool, skip: usize)
    requires
        skip <= curve@.len(),
    ensures
        final(points)@ == old(points)@ + (if back {
            curve@.reverse()
        } else {
            curve@
        }).subrange(skip as int, curve@.len() as int),
{
    let n: usize = curve.len();
    let ghost before = points@;
    let ghost way = if back {
        curve@.reverse()
    } else {
        curve@
    };
    let mut i: usize = skip;
    assert(points@ =~= before + way.subrange(skip as int, skip as int));
    while i < n
        invariant
            n == curve@.len(),
            skip <= i <= n,
            way == (if back {
                curve@.reverse()
            } else {
                curve@
            }),
            points@ == before + way.subrange(skip as int, i as int),
        decreases n - i,
    {
        let at: usize = if back {
            n - 1 - i
        } else {
            i
        };
        assert(way[i as int] == curve@[at as int]);
        points.push(curve[at]);
        i += 1;
        assert(points@ =~= before + way.subrange(skip as int, i as int));
    }
}

/// Find the next arc of a chain.
fn find_hop(
    arcs: &[usize],
    gaps: &Vec<Vec<Real>>,
    tol: Real,
    used: &[bool],
    tail: usize,
    n: usize,
) -> (found: Option<(usize, Hop)>)
    requires
        gaps_measured(gaps@, n as int),
        all_below(arcs@, n as int),
        used@.len() == arcs@.len(),
        tail < 2 * n,
        2 * n <= usize::MAX,
    ensures
        match found {
            None => next_hop(arcs@, gaps@, tol, used@, tail as int, 0) is None,
            Some((p, h)) => next_hop(arcs@, gaps@, tol, used@, tail as int, 0) == Some(
                (p as int, h),
            ),
        },
{
    let mut p: usize = 0;
    while p < arcs.len()
        invariant
            gaps_measured(gaps@, n as int),
            all_below(arcs@, n as int),
            used@.len() == arcs@.len(),
            tail < 2 * n,
            2 * n <= usize::MAX,
            p <= arcs@.len(),
            next_hop(arcs@, gaps@, tol, used@, tail as int, 0) == next_hop(
                arcs@,
                gaps@,
                tol,
                used@,
                tail as int,
                p as int,
            ),
        decreases arcs@.len() - p,
    {
        if !used[p] {
            let arc: usize = arcs[p];
            assert(arcs@[p as int] < n);
            assert(gaps@[tail as int]@.len() >= 2 * n);
            if gaps[tail][2 * arc].le(tol) {
                return Some((p, Hop { arc, back: false }));
            }
            if gaps[tail][2 * arc + 1].le(tol) {
                return Some((p, Hop { arc, back: true }));
            }
        }
        p += 1;
    }
    None
}

/// Chain the curves of a section into loops.  Curves whose ends meet nothing
/// are left out.  `gaps` holds the distances between the ends of the curves,
/// the start and the end of each in turn.
pub fn section_loops(curves: &[SsiCurve], gaps: &Vec<Vec<Real>>, tol: Real) -> (loops: Vec<
    Vec<Point3>,
>)
    requires
        gaps_measured(gaps@, curves@.len() as int),
    ensures
        loop_views(loops@) == loops_found(curves@, gaps@, tol),
{
    let n: usize = curves.len();
    let limit: usize = gaps.len();
    let mut loops: Vec<Vec<Point3>> = Vec::new();
    let mut arcs: Vec<usize> = Vec::new();
    let mut k: usize = 0;
    assert(loop_views(loops@) =~= whole_loops(curves@, gaps@, tol, 0));
    while k < n
        invariant
            n == curves@.len(),
            gaps_measured(gaps@, n as int),
            2 * n <= usize::MAX,
            k <= n,
            loop_views(loops@) == whole_loops(curves@, gaps@, tol, k as int),
            arcs@ == open_arcs(curves@, gaps@, tol, k as int),
        decreases n - k,
    {
        let c: &SsiCurve = &curves[k];
        let len: usize = c.points.len();
        if len >= 2 {
            assert(gaps@[2 * k as int]@.len() >= 2 * n);
            let meet = gaps[2 * k][2 * k + 1].le(tol);
            if c.closed || (meet && len >= 3) {
                let take: usize = if meet && len >= 3 {
                    len - 1
                } else {
                    len
                };
                let every = count_up(take);
                assert(all_below(every@, len as int));
                let pts = pick_points(&c.points, &every);
                let ghost before = loops@;
                assert(pts@ =~= if meet && len >= 3 {
                    c.points@.drop_last()
                } else {
                    c.points@
                });
                loops.push(pts);
                assert(loop_views(loops@) =~= loop_views(before).push(pts@));
            } else {
                arcs.push(k);
            }
        }
        k += 1;
    }
    let ghost whole = whole_loops(curves@, gaps@, tol, n as int);
    let m: usize = arcs.len();
    proof {
        lemma_open_arcs(curves@, gaps@, tol, n as int);
    }
    let mut used: Vec<bool> = Vec::new();
    let mut u: usize = 0;
    while u < m
        invariant
            u <= m,
            used@ == Seq::new(u as nat, |i: int| false),
        decreases m - u,
    {
        used.push(false);
        u += 1;
        assert(used@ =~= Seq::new(u as nat, |i: int| false));
    }
    let ghost mut chains: Seq<Seq<Hop>> = Seq::empty();
    let mut i: usize = 0;
    assert(loop_views(loops@) =~= whole + Seq::new(
        chains.len(),
        |j: int| hops_points(curves@, chains[j], chains[j].len() as int),
    ));
    while i < m
        invariant
            n == curves@.len(),
            gaps_measured(gaps@, n as int),
            2 * n <= usize::MAX,
            m == arcs@.len(),
            all_below(arcs@, n as int),
            forall|j: int|
                0 <= j < m ==> curves@[(#[trigger] arcs@[j]) as int].points@.len() >= 2,
            i <= m,
            used@.len() == m,
            chained(curves@, arcs@, gaps@, tol, i as int) == (Chaining { used: used@, chains }),
            loop_views(loops@) == whole + Seq::new(
                chains.len(),
                |j: int| hops_points(curves@, chains[j], chains[j].len() as int),
            ),
        decreases m - i,
    {
        if used[i] {
            i += 1;
            continue;
        }
        let ghost before = Chaining { used: used@, chains };
        used.set(i, true);
        let first: usize = arcs[i];
        assert(arcs@[i as int] < n);
        let head: usize = 2 * first;
        let mut tail: usize = 2 * first + 1;
        let mut count: usize = 1;
        let mut points: Vec<Point3> = Vec::new();
        follow_hop(&mut points, &curves[first].points, false, 0);
        let ghost mut hops = seq![Hop { arc: first, back: false }];
        assert(points@ =~= hops_points(curves@, hops, 1)) by {
            assert(hop_points(curves@, hops[0]).subrange(
                0,
                hop_points(curves@, hops[0]).len() as int,
            ) =~= hop_points(curves@, hops[0]));
        }
        let ghost goal = followed(curves@, arcs@, gaps@, tol, used@, hops);
        let mut closes = false;
        let mut stuck = false;
        while !closes && !stuck
            invariant
                n == curves@.len(),
                gaps_measured(gaps@, n as int),
                2 * n <= usize::MAX,
                m == arcs@.len(),
                all_below(arcs@, n as int),
                forall|j: int|
                    0 <= j < m ==> curves@[(#[trigger] arcs@[j]) as int].points@.len() >= 2,
                used@.len() == m,
                head < 2 * n,
                tail < 2 * n,
                hops.len() > 0,
                count == hops.len(),
                count <= m,
                head == hop_start(hops.first()),
                tail == hop_end(hops.last()),
                points@ == hops_points(curves@, hops, hops.len() as int),
                !(closes && stuck),
                closes ==> goal == (used@, Some(hops)),
                stuck ==> goal == (used@, None::<Seq<Hop>>),
                !closes && !stuck ==> goal == followed(curves@, arcs@, gaps@, tol, used@, hops),
            decreases m - count, if closes || stuck { 0int } else { 1int },
        {
            assert(gaps@[tail as int]@.len() >= 2 * n);
            if gaps[tail][head].le(tol) && points.len() >= 3 {
                closes = true;
            } else if count >= m {
                stuck = true;
            } else {
                proof {
                    lemma_next_hop(arcs@, gaps@, tol, used@, tail as int, 0);
                }
                match find_hop(&arcs, gaps, tol, &used, tail, n) {
                    None => {
                        stuck = true;
                    },
                    Some((p, h)) => {
                        assert(arcs@[p as int] < n);
                        let ghost longer = hops.push(h);
                        used.set(p, true);
                        follow_hop(&mut points, &curves[h.arc].points, h.back, 1);
                        proof {
                            lemma_hops_prefix(curves@, hops, h, hops.len() as int);
                            assert(longer.last() == h);
                            assert(longer.first() == hops.first());
                            hops = longer;
                        }
                        tail = if h.back {
                            2 * h.arc
                        } else {
                            2 * h.arc + 1
                        };
                        count += 1;
                    },
                }
            }
        }
        if closes {
            let ghost held = loops@;
            let ghost pts = points@;
            let ghost old_chains = chains;
            loops.push(points);
            proof {
                chains = chains.push(hops);
                assert(loop_views(loops@) =~= loop_views(held).push(pts));
                assert(loop_views(loops@) =~= whole + Seq::new(
                    chains.len(),
                    |j: int| hops_points(curves@, chains[j], chains[j].len() as int),
                ));
            }
        }
        i += 1;
    }
    assert(loop_views(loops@) =~= loops_found(curves@, gaps@, tol));
    loops
}

proof fn lemma_hops_prefix(curves: Seq<SsiCurve>, hops: Seq<Hop>, h: Hop, k: int)
    requires
        0 <= k <= hops.len(),
    ensures
        hops_points(curves, hops.push(h), k) == hops_points(curves, hops, k),
    decreases k,
{
    if k > 0 {
        lemma_hops_prefix(curves, hops, h, k - 1);
        assert(hops.push(h)[k - 1] == hops[k - 1]);
    }
}

/// Whether each hop of a chain but the first starts where the one before ends.
pub open spec fn connected(gaps: Seq<Vec<Real>>, tol: Real, hops: Seq<Hop>) -> bool {
    forall|i: int|
        0 < i < hops.len() ==> ends_meet(
            gaps,
            tol,
            hop_end(hops[i - 1]),
            hop_start(#[trigger] hops[i]),
        )
}

/// Whether every hop is along an arc that is used, and no two along the same.
pub open spec fn hops_used(arcs: Seq<usize>, used: Seq<bool>, hops: Seq<Hop>) -> bool {
    &&& forall|i: int|
        0 <= i < hops.len() ==> is_used(arcs, used, (#[trigger] hops[i]).arc)
    &&& forall|i: int, j: int|
        0 <= i < j < hops.len() ==> (#[trigger] hops[i]).arc != (#[trigger] hops[j]).arc
}

/// Whether an arc is among those used.
pub open spec fn is_used(arcs: Seq<usize>, used: Seq<bool>, arc: usize) -> bool {
    exists|p: int| 0 <= p < arcs.len() && used[p] && #[trigger] arcs[p] == arc
}

proof fn lemma_used_grows(arcs: Seq<usize>, used: Seq<bool>, q: int)
    requires
        used.len() == arcs.len(),
        0 <= q < arcs.len(),
    ensures
        is_used(arcs, used.update(q, true), arcs[q]),
        forall|a: usize| is_used(arcs, used, a) ==> #[trigger] is_used(
            arcs,
            used.update(q, true),
            a,
        ),
        ascending(arcs) && !used[q] ==> !is_used(arcs, used, arcs[q]),
{
    let t = used.update(q, true);
    assert(t[q] && arcs[q] == arcs[q]);
    assert forall|a: usize| is_used(arcs, used, a) implies #[trigger] is_used(arcs, t, a) by {
        let p = choose|p: int| 0 <= p < arcs.len() && used[p] && #[trigger] arcs[p] == a;
        assert(t[p] && arcs[p] == a);
    }
    if ascending(arcs) && !used[q] && is_used(arcs, used, arcs[q]) {
        let p = choose|p: int| 0 <= p < arcs.len() && used[p] && #[trigger] arcs[p] == arcs[q];
        if p < q {
            assert(arcs[p] < arcs[q]);
        } else if q < p {
            assert(arcs[q] < arcs[p]);
        }
    }
}

/// What following a chain keeps.
proof fn lemma_followed(
    curves: Seq<SsiCurve>,
    arcs: Seq<usize>,
    gaps: Seq<Vec<Real>>,
    tol: Real,
    before: Seq<bool>,
    used: Seq<bool>,
    hops: Seq<Hop>,
)
    requires
        ascending(arcs),
        used.len() == arcs.len(),
        hops.len() > 0,
        connected(gaps, tol, hops),
        hops_used(arcs, used, hops),
        forall|a: usize| is_used(arcs, before, a) ==> #[trigger] is_used(arcs, used, a),
        forall|i: int|
            0 <= i < hops.len() ==> !is_used(arcs, before, (#[trigger] hops[i]).arc),
    ensures
        ({
            let r = followed(curves, arcs, gaps, tol, used, hops);
            &&& r.0.len() == arcs.len()
            &&& forall|a: usize| is_used(arcs, before, a) ==> #[trigger] is_used(arcs, r.0, a)
            &&& match r.1 {
                Some(chain) => {
                    &&& chain.len() > 0
                    &&& connected(gaps, tol, chain)
                    &&& chain_closes(curves, gaps, tol, chain)
                    &&& hops_used(arcs, r.0, chain)
                    &&& forall|i: int|
                        0 <= i < chain.len() ==> !is_used(arcs, before, (#[trigger] chain[i]).arc)
                },
                None => true,
            }
        }),
    decreases arcs.len() - hops.len(),
{
    if !chain_closes(curves, gaps, tol, hops) && hops.len() < arcs.len() {
        lemma_next_hop(arcs, gaps, tol, used, hop_end(hops.last()), 0);
        match next_hop(arcs, gaps, tol, used, hop_end(hops.last()), 0) {
            None => {},
            Some((p, h)) => {
                let now = used.update(p, true);
                let longer = hops.push(h);
                lemma_used_grows(arcs, used, p);
                assert(connected(gaps, tol, longer)) by {
                    assert forall|i: int| 0 < i < longer.len() implies ends_meet(
                        gaps,
                        tol,
                        hop_end(longer[i - 1]),
                        hop_start(#[trigger] longer[i]),
                    ) by {
                        if i < hops.len() {
                            assert(longer[i] == hops[i] && longer[i - 1] == hops[i - 1]);
                        }
                    }
                }
                assert(hops_used(arcs, now, longer)) by {
                    assert forall|i: int| 0 <= i < longer.len() implies is_used(
                        arcs,
                        now,
                        (#[trigger] longer[i]).arc,
                    ) by {
                        if i < hops.len() {
                            assert(is_used(arcs, used, hops[i].arc));
                        }
                    }
                    assert forall|i: int, j: int| 0 <= i < j < longer.len() implies (
                    #[trigger] longer[i]).arc != (#[trigger] longer[j]).arc by {
                        if j < hops.len() {
                            assert(hops[i].arc != hops[j].arc);
                        } else {
                            assert(is_used(arcs, used, hops[i].arc));
                        }
                    }
                }
                assert(!is_used(arcs, before, h.arc)) by {
                    if is_used(arcs, before, h.arc) {
                        assert(is_used(arcs, used, h.arc));
                    }
                }
                assert forall|i: int| 0 <= i < longer.len() implies !is_used(
                    arcs,
                    before,
                    (#[trigger] longer[i]).arc,
                ) by {
                    if i < hops.len() {
                        assert(longer[i] == hops[i]);
                    }
                }
                assert forall|a: usize| is_used(arcs, before, a) implies #[trigger] is_used(
                    arcs,
                    now,
                    a,
                ) by {
                    assert(is_used(arcs, used, a));
                }
                lemma_followed(curves, arcs, gaps, tol, before, now, longer);
            },
        }
    }
}

/// Every chain is a loop: each arc starts where the one before ends, and the
/// last ends where the first starts.  No arc is used twice, within a chain or
/// in two of them.
pub proof fn law_arcs_are_used_once(
    curves: Seq<SsiCurve>,
    arcs: Seq<usize>,
    gaps: Seq<Vec<Real>>,
    tol: Real,
    k: int,
)
    requires
        ascending(arcs),
        0 <= k <= arcs.len(),
    ensures
        ({
            let s = chained(curves, arcs, gaps, tol, k);
            &&& s.used.len() == arcs.len()
            &&& forall|c: int|
                0 <= c < s.chains.len() ==> (#[trigger] s.chains[c]).len() > 0 && connected(
                    gaps,
                    tol,
                    s.chains[c],
                ) && chain_closes(curves, gaps, tol, s.chains[c]) && hops_used(
                    arcs,
                    s.used,
                    s.chains[c],
                )
            &&& forall|c: int, d: int, i: int, j: int|
                #![trigger s.chains[c][i], s.chains[d][j]]
                0 <= c < d < s.chains.len() && 0 <= i < s.chains[c].len() && 0 <= j
                    < s.chains[d].len() ==> s.chains[c][i].arc != s.chains[d][j].arc
        }),
    decreases k,
{
    if k > 0 {
        law_arcs_are_used_once(curves, arcs, gaps, tol, k - 1);
        let s = chained(curves, arcs, gaps, tol, k - 1);
        if !s.used[k - 1] {
            let used = s.used.update(k - 1, true);
            let hops = seq![Hop { arc: arcs[k - 1], back: false }];
            lemma_used_grows(arcs, s.used, k - 1);
            assert(hops_used(arcs, used, hops));
            lemma_followed(curves, arcs, gaps, tol, s.used, used, hops);
            let t = chained(curves, arcs, gaps, tol, k);
            let r = followed(curves, arcs, gaps, tol, used, hops);
            assert forall|c: int| 0 <= c < t.chains.len() implies (#[trigger] t.chains[c]).len() > 0
                && connected(gaps, tol, t.chains[c]) && chain_closes(
                curves,
                gaps,
                tol,
                t.chains[c],
            ) && hops_used(arcs, t.used, t.chains[c]) by {
                if c < s.chains.len() {
                    assert(t.chains[c] == s.chains[c]);
                    let chain = s.chains[c];
                    assert(hops_used(arcs, s.used, chain));
                    assert forall|i: int| 0 <= i < chain.len() implies is_used(
                        arcs,
                        t.used,
                        (#[trigger] chain[i]).arc,
                    ) by {
                        assert(is_used(arcs, s.used, chain[i].arc));
                    }
                }
            }
            assert forall|c: int, d: int, i: int, j: int|
                #![trigger t.chains[c][i], t.chains[d][j]]
                0 <= c < d < t.chains.len() && 0 <= i < t.chains[c].len() && 0 <= j
                    < t.chains[d].len() implies t.chains[c][i].arc != t.chains[d][j].arc by {
                if d < s.chains.len() {
                    assert(s.chains[c][i].arc != s.chains[d][j].arc);
                } else {
                    assert(t.chains[c] == s.chains[c]);
                    assert(hops_used(arcs, s.used, s.chains[c]));
                    assert(is_used(arcs, s.used, s.chains[c][i].arc));
                    assert(!is_used(arcs, s.used, t.chains[d][j].arc));
                }
            }
        }
    }
}

} // verus!
