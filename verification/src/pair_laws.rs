//! Which members of a scaffold are held against each other, and which crossings
//! become windows.

use vstd::prelude::*;

use crate::scaffold::{
    admitted, all_pairs, bend_rows, bends_rows, between_pairs, elbow_pairs, imprints, later_rows,
    law_windows_are_cut_twice, leg_rows, row, within_pairs, Aabb, Crossing, Member, Nearness, Pair,
    Pairing,
};
use crate::scalar::Real;

verus! {

/// Whether two boxes have a point in common: in no direction does one of them
/// end before the other begins.
pub open spec fn boxes_touch(a: Aabb, b: Aabb) -> bool {
    &&& a.min.x.at_most(b.max.x)
    &&& b.min.x.at_most(a.max.x)
    &&& a.min.y.at_most(b.max.y)
    &&& b.min.y.at_most(a.max.y)
    &&& a.min.z.at_most(b.max.z)
    &&& b.min.z.at_most(a.max.z)
}

/// Whether two members may cross, told from their boxes alone: legs of different
/// filaments; and, if these are looked at too, legs of one filament that are not
/// neighbours, and a bend and a leg that it does not join.
pub open spec fn may_cross(
    legs: Seq<Seq<Aabb>>,
    elbows: Seq<Seq<Aabb>>,
    extra: bool,
    p: Pair,
) -> bool {
    &&& p.fi < legs.len()
    &&& p.fj < legs.len()
    &&& p.j < legs[p.fj as int].len()
    &&& match p.kind {
        Pairing::Between => p.fi < p.fj && p.i < legs[p.fi as int].len() && boxes_touch(
            legs[p.fi as int][p.i as int],
            legs[p.fj as int][p.j as int],
        ),
        Pairing::Within => extra && p.fi == p.fj && p.j >= p.i + 2 && boxes_touch(
            legs[p.fi as int][p.i as int],
            legs[p.fj as int][p.j as int],
        ),
        Pairing::Elbow => extra && p.i < elbows[p.fi as int].len() && !(p.fi == p.fj && (p.j == p.i
            || p.j == p.i + 1)) && boxes_touch(
            elbows[p.fi as int][p.i as int],
            legs[p.fj as int][p.j as int],
        ),
    }
}

/// Whether filaments and their members can be counted.
pub open spec fn can_be_counted(legs: Seq<Seq<Aabb>>, elbows: Seq<Seq<Aabb>>) -> bool {
    &&& elbows.len() == legs.len()
    &&& legs.len() <= usize::MAX
    &&& forall|f: int| 0 <= f < legs.len() ==> (#[trigger] legs[f]).len() <= usize::MAX
    &&& forall|f: int| 0 <= f < elbows.len() ==> (#[trigger] elbows[f]).len() <= usize::MAX
}

proof fn lemma_contains_add(a: Seq<Pair>, b: Seq<Pair>, p: Pair)
    ensures
        (a + b).contains(p) <==> a.contains(p) || b.contains(p),
{
    let all = a + b;
    if a.contains(p) {
        let i = choose|i: int| 0 <= i < a.len() && a[i] == p;
        assert(all[i] == p);
    }
    if b.contains(p) {
        let i = choose|i: int| 0 <= i < b.len() && b[i] == p;
        assert(all[a.len() + i] == p);
    }
    if all.contains(p) {
        let i = choose|i: int| 0 <= i < all.len() && all[i] == p;
        if i < a.len() {
            assert(a[i] == p);
        } else {
            assert(b[i - a.len()] == p);
        }
    }
}

proof fn lemma_row(
    kind: Pairing,
    fi: int,
    i: int,
    fj: int,
    one: Aabb,
    legs: Seq<Aabb>,
    k: int,
    p: Pair,
)
    requires
        0 <= fi <= usize::MAX,
        0 <= i <= usize::MAX,
        0 <= fj <= usize::MAX,
        0 <= k <= legs.len(),
        legs.len() <= usize::MAX,
    ensures
        row(kind, fi, i, fj, one, legs, k).contains(p) <==> {
            &&& p.kind == kind
            &&& p.fi == fi
            &&& p.i == i
            &&& p.fj == fj
            &&& p.j < k
            &&& admitted(kind, fi, i, fj, p.j as int, one, legs[p.j as int])
        },
    decreases k,
{
    if k > 0 {
        lemma_row(kind, fi, i, fj, one, legs, k - 1, p);
        let rest = row(kind, fi, i, fj, one, legs, k - 1);
        let last = Pair {
            kind,
            fi: fi as usize,
            i: i as usize,
            fj: fj as usize,
            j: (k - 1) as usize,
        };
        lemma_contains_add(rest, seq![last], p);
        assert(rest.push(last) =~= rest + seq![last]);
        assert(seq![last].contains(p) <==> p == last) by {
            assert(seq![last][0] == last);
        }
    }
}

proof fn lemma_leg_rows(
    kind: Pairing,
    fi: int,
    fj: int,
    legs: Seq<Seq<Aabb>>,
    k: int,
    p: Pair,
)
    requires
        0 <= fi < legs.len(),
        0 <= fj < legs.len(),
        legs.len() <= usize::MAX,
        forall|f: int| 0 <= f < legs.len() ==> (#[trigger] legs[f]).len() <= usize::MAX,
        0 <= k <= legs[fi].len(),
    ensures
        leg_rows(kind, fi, fj, legs, k).contains(p) <==> {
            &&& p.kind == kind
            &&& p.fi == fi
            &&& p.i < k
            &&& p.fj == fj
            &&& p.j < legs[fj].len()
            &&& admitted(
                kind,
                fi,
                p.i as int,
                fj,
                p.j as int,
                legs[fi][p.i as int],
                legs[fj][p.j as int],
            )
        },
    decreases k,
{
    if k > 0 {
        let n = legs[fj].len() as int;
        assert(legs[fi].len() <= usize::MAX);
        assert(legs[fj].len() <= usize::MAX);
        lemma_leg_rows(kind, fi, fj, legs, k - 1, p);
        lemma_row(kind, fi, k - 1, fj, legs[fi][k - 1], legs[fj], n, p);
        lemma_contains_add(
            leg_rows(kind, fi, fj, legs, k - 1),
            row(kind, fi, k - 1, fj, legs[fi][k - 1], legs[fj], n),
            p,
        );
    }
}

proof fn lemma_later_rows(fi: int, legs: Seq<Seq<Aabb>>, k: int, p: Pair)
    requires
        0 <= fi < legs.len(),
        legs.len() <= usize::MAX,
        forall|f: int| 0 <= f < legs.len() ==> (#[trigger] legs[f]).len() <= usize::MAX,
        k <= legs.len(),
    ensures
        later_rows(fi, legs, k).contains(p) <==> {
            &&& p.kind is Between
            &&& p.fi == fi
            &&& p.i < legs[fi].len()
            &&& fi < p.fj < k
            &&& p.j < legs[p.fj as int].len()
            &&& admitted(
                Pairing::Between,
                fi,
                p.i as int,
                p.fj as int,
                p.j as int,
                legs[fi][p.i as int],
                legs[p.fj as int][p.j as int],
            )
        },
    decreases k - fi,
{
    if k > 0 && k > fi + 1 {
        let n = legs[fi].len() as int;
        lemma_later_rows(fi, legs, k - 1, p);
        lemma_leg_rows(Pairing::Between, fi, k - 1, legs, n, p);
        lemma_contains_add(
            later_rows(fi, legs, k - 1),
            leg_rows(Pairing::Between, fi, k - 1, legs, n),
            p,
        );
    }
}

proof fn lemma_between(legs: Seq<Seq<Aabb>>, k: int, p: Pair)
    requires
        legs.len() <= usize::MAX,
        forall|f: int| 0 <= f < legs.len() ==> (#[trigger] legs[f]).len() <= usize::MAX,
        0 <= k <= legs.len(),
    ensures
        between_pairs(legs, k).contains(p) <==> {
            &&& p.kind is Between
            &&& p.fi < k
            &&& p.i < legs[p.fi as int].len()
            &&& p.fi < p.fj < legs.len()
            &&& p.j < legs[p.fj as int].len()
            &&& boxes_touch(legs[p.fi as int][p.i as int], legs[p.fj as int][p.j as int])
        },
    decreases k,
{
    if k > 0 {
        let n = legs.len() as int;
        lemma_between(legs, k - 1, p);
        lemma_later_rows(k - 1, legs, n, p);
        lemma_contains_add(between_pairs(legs, k - 1), later_rows(k - 1, legs, n), p);
    }
}

proof fn lemma_within(legs: Seq<Seq<Aabb>>, k: int, p: Pair)
    requires
        legs.len() <= usize::MAX,
        forall|f: int| 0 <= f < legs.len() ==> (#[trigger] legs[f]).len() <= usize::MAX,
        0 <= k <= legs.len(),
    ensures
        within_pairs(legs, k).contains(p) <==> {
            &&& p.kind is Within
            &&& p.fi < k
            &&& p.fj == p.fi
            &&& p.i + 2 <= p.j
            &&& p.j < legs[p.fj as int].len()
            &&& boxes_touch(legs[p.fi as int][p.i as int], legs[p.fj as int][p.j as int])
        },
    decreases k,
{
    if k > 0 {
        let n = legs[k - 1].len() as int;
        lemma_within(legs, k - 1, p);
        lemma_leg_rows(Pairing::Within, k - 1, k - 1, legs, n, p);
        lemma_contains_add(
            within_pairs(legs, k - 1),
            leg_rows(Pairing::Within, k - 1, k - 1, legs, n),
            p,
        );
    }
}

proof fn lemma_bend_rows(
    fi: int,
    ei: int,
    one: Aabb,
    legs: Seq<Seq<Aabb>>,
    k: int,
    p: Pair,
)
    requires
        0 <= fi <= usize::MAX,
        0 <= ei <= usize::MAX,
        legs.len() <= usize::MAX,
        forall|f: int| 0 <= f < legs.len() ==> (#[trigger] legs[f]).len() <= usize::MAX,
        0 <= k <= legs.len(),
    ensures
        bend_rows(fi, ei, one, legs, k).contains(p) <==> {
            &&& p.kind is Elbow
            &&& p.fi == fi
            &&& p.i == ei
            &&& p.fj < k
            &&& p.j < legs[p.fj as int].len()
            &&& admitted(
                Pairing::Elbow,
                fi,
                ei,
                p.fj as int,
                p.j as int,
                one,
                legs[p.fj as int][p.j as int],
            )
        },
    decreases k,
{
    if k > 0 {
        let n = legs[k - 1].len() as int;
        lemma_bend_rows(fi, ei, one, legs, k - 1, p);
        lemma_row(Pairing::Elbow, fi, ei, k - 1, one, legs[k - 1], n, p);
        lemma_contains_add(
            bend_rows(fi, ei, one, legs, k - 1),
            row(Pairing::Elbow, fi, ei, k - 1, one, legs[k - 1], n),
            p,
        );
    }
}

proof fn lemma_bends_rows(
    fi: int,
    elbows: Seq<Seq<Aabb>>,
    legs: Seq<Seq<Aabb>>,
    k: int,
    p: Pair,
)
    requires
        can_be_counted(legs, elbows),
        0 <= fi < legs.len(),
        0 <= k <= elbows[fi].len(),
    ensures
        bends_rows(fi, elbows, legs, k).contains(p) <==> {
            &&& p.kind is Elbow
            &&& p.fi == fi
            &&& p.i < k
            &&& p.fj < legs.len()
            &&& p.j < legs[p.fj as int].len()
            &&& admitted(
                Pairing::Elbow,
                fi,
                p.i as int,
                p.fj as int,
                p.j as int,
                elbows[fi][p.i as int],
                legs[p.fj as int][p.j as int],
            )
        },
    decreases k,
{
    if k > 0 {
        let n = legs.len() as int;
        let one = elbows[fi][k - 1];
        assert(elbows[fi].len() <= usize::MAX);
        lemma_bends_rows(fi, elbows, legs, k - 1, p);
        lemma_bend_rows(fi, k - 1, one, legs, n, p);
        lemma_contains_add(
            bends_rows(fi, elbows, legs, k - 1),
            bend_rows(fi, k - 1, one, legs, n),
            p,
        );
    }
}

proof fn lemma_elbows(elbows: Seq<Seq<Aabb>>, legs: Seq<Seq<Aabb>>, k: int, p: Pair)
    requires
        can_be_counted(legs, elbows),
        0 <= k <= legs.len(),
    ensures
        elbow_pairs(elbows, legs, k).contains(p) <==> {
            &&& p.kind is Elbow
            &&& p.fi < k
            &&& p.i < elbows[p.fi as int].len()
            &&& p.fj < legs.len()
            &&& p.j < legs[p.fj as int].len()
            &&& !(p.fi == p.fj && (p.j == p.i || p.j == p.i + 1))
            &&& boxes_touch(elbows[p.fi as int][p.i as int], legs[p.fj as int][p.j as int])
        },
    decreases k,
{
    if k > 0 {
        let n = elbows[k - 1].len() as int;
        lemma_elbows(elbows, legs, k - 1, p);
        lemma_bends_rows(k - 1, elbows, legs, n, p);
        lemma_contains_add(
            elbow_pairs(elbows, legs, k - 1),
            bends_rows(k - 1, elbows, legs, n),
            p,
        );
    }
}

/// Every two members that may cross are held against each other, whatever
/// filaments they belong to, and no others are: legs of any two filaments whose
/// boxes meet; and, if these are looked at too, legs of one filament that are not
/// neighbours, and any bend with any leg that it does not join.
pub proof fn law_all_that_may_cross_are_paired(
    legs: Seq<Seq<Aabb>>,
    elbows: Seq<Seq<Aabb>>,
    extra: bool,
    p: Pair,
)
    requires
        can_be_counted(legs, elbows),
    ensures
        all_pairs(legs, elbows, extra).contains(p) <==> may_cross(legs, elbows, extra, p),
{
    let n = legs.len() as int;
    lemma_between(legs, n, p);
    lemma_within(legs, n, p);
    lemma_elbows(elbows, legs, n, p);
    lemma_contains_add(between_pairs(legs, n), within_pairs(legs, n), p);
    lemma_contains_add(
        between_pairs(legs, n) + within_pairs(legs, n),
        elbow_pairs(elbows, legs, n),
        p,
    );
}

// ── In which order ──────────────────────────────────────────────────────────

/// Whether one of two lists of four numbers comes first in the dictionary.
pub open spec fn earlier(a: (int, int, int, int), b: (int, int, int, int)) -> bool {
    a.0 < b.0 || a.0 == b.0 && (a.1 < b.1 || a.1 == b.1 && (a.2 < b.2 || a.2 == b.2 && a.3 < b.3))
}

/// What a pair is ordered by after its kind: filament, filament, leg, leg; for a
/// bend filament, bend, filament, leg.
pub open spec fn places_of(p: Pair) -> (int, int, int, int) {
    match p.kind {
        Pairing::Elbow => (p.fi as int, p.i as int, p.fj as int, p.j as int),
        _ => (p.fi as int, p.fj as int, p.i as int, p.j as int),
    }
}

/// Legs of different filaments come first, then legs of one, then bends.
pub open spec fn turn_of(p: Pair) -> int {
    match p.kind {
        Pairing::Between => 0,
        Pairing::Within => 1,
        Pairing::Elbow => 2,
    }
}

/// Whether one pair is looked at before another.
pub open spec fn goes_first(p: Pair, q: Pair) -> bool {
    turn_of(p) < turn_of(q) || turn_of(p) == turn_of(q) && earlier(places_of(p), places_of(q))
}

/// Whether pairs stand in order, each once.
pub open spec fn in_turn(pairs: Seq<Pair>) -> bool {
    forall|a: int, b: int|
        0 <= a < b < pairs.len() ==> goes_first(#[trigger] pairs[a], #[trigger] pairs[b])
}

proof fn lemma_in_turn_add(a: Seq<Pair>, b: Seq<Pair>)
    requires
        in_turn(a),
        in_turn(b),
        forall|p: Pair, q: Pair| #[trigger]
            a.contains(p) && #[trigger] b.contains(q) ==> goes_first(p, q),
    ensures
        in_turn(a + b),
{
    let all = a + b;
    assert forall|x: int, y: int| 0 <= x < y < all.len() implies goes_first(
        #[trigger] all[x],
        #[trigger] all[y],
    ) by {
        if y < a.len() {
            assert(all[x] == a[x] && all[y] == a[y]);
        } else if x >= a.len() {
            assert(all[x] == b[x - a.len()] && all[y] == b[y - a.len()]);
        } else {
            assert(a.contains(a[x]) && b.contains(b[y - a.len()]));
        }
    }
}

proof fn lemma_row_in_turn(
    kind: Pairing,
    fi: int,
    i: int,
    fj: int,
    one: Aabb,
    legs: Seq<Aabb>,
    k: int,
)
    requires
        0 <= fi <= usize::MAX,
        0 <= i <= usize::MAX,
        0 <= fj <= usize::MAX,
        0 <= k <= legs.len(),
        legs.len() <= usize::MAX,
    ensures
        in_turn(row(kind, fi, i, fj, one, legs, k)),
    decreases k,
{
    if k > 0 {
        let rest = row(kind, fi, i, fj, one, legs, k - 1);
        lemma_row_in_turn(kind, fi, i, fj, one, legs, k - 1);
        let last = Pair {
            kind,
            fi: fi as usize,
            i: i as usize,
            fj: fj as usize,
            j: (k - 1) as usize,
        };
        assert forall|p: Pair, q: Pair| #[trigger]
            rest.contains(p) && #[trigger] seq![last].contains(q) implies goes_first(p, q) by {
            lemma_row(kind, fi, i, fj, one, legs, k - 1, p);
        }
        lemma_in_turn_add(rest, seq![last]);
        assert(rest.push(last) =~= rest + seq![last]);
    }
}

proof fn lemma_leg_rows_in_turn(kind: Pairing, fi: int, fj: int, legs: Seq<Seq<Aabb>>, k: int)
    requires
        !(kind is Elbow),
        0 <= fi < legs.len(),
        0 <= fj < legs.len(),
        legs.len() <= usize::MAX,
        forall|f: int| 0 <= f < legs.len() ==> (#[trigger] legs[f]).len() <= usize::MAX,
        0 <= k <= legs[fi].len(),
    ensures
        in_turn(leg_rows(kind, fi, fj, legs, k)),
    decreases k,
{
    if k > 0 {
        let n = legs[fj].len() as int;
        let rest = leg_rows(kind, fi, fj, legs, k - 1);
        let more = row(kind, fi, k - 1, fj, legs[fi][k - 1], legs[fj], n);
        assert(legs[fi].len() <= usize::MAX && legs[fj].len() <= usize::MAX);
        lemma_leg_rows_in_turn(kind, fi, fj, legs, k - 1);
        lemma_row_in_turn(kind, fi, k - 1, fj, legs[fi][k - 1], legs[fj], n);
        assert forall|p: Pair, q: Pair| #[trigger]
            rest.contains(p) && #[trigger] more.contains(q) implies goes_first(p, q) by {
            lemma_leg_rows(kind, fi, fj, legs, k - 1, p);
            lemma_row(kind, fi, k - 1, fj, legs[fi][k - 1], legs[fj], n, q);
        }
        lemma_in_turn_add(rest, more);
    }
}

proof fn lemma_later_in_turn(fi: int, legs: Seq<Seq<Aabb>>, k: int)
    requires
        0 <= fi < legs.len(),
        legs.len() <= usize::MAX,
        forall|f: int| 0 <= f < legs.len() ==> (#[trigger] legs[f]).len() <= usize::MAX,
        k <= legs.len(),
    ensures
        in_turn(later_rows(fi, legs, k)),
    decreases k - fi,
{
    if k > 0 && k > fi + 1 {
        let n = legs[fi].len() as int;
        let rest = later_rows(fi, legs, k - 1);
        let more = leg_rows(Pairing::Between, fi, k - 1, legs, n);
        lemma_later_in_turn(fi, legs, k - 1);
        lemma_leg_rows_in_turn(Pairing::Between, fi, k - 1, legs, n);
        assert forall|p: Pair, q: Pair| #[trigger]
            rest.contains(p) && #[trigger] more.contains(q) implies goes_first(p, q) by {
            lemma_later_rows(fi, legs, k - 1, p);
            lemma_leg_rows(Pairing::Between, fi, k - 1, legs, n, q);
        }
        lemma_in_turn_add(rest, more);
    }
}

proof fn lemma_between_in_turn(legs: Seq<Seq<Aabb>>, k: int)
    requires
        legs.len() <= usize::MAX,
        forall|f: int| 0 <= f < legs.len() ==> (#[trigger] legs[f]).len() <= usize::MAX,
        0 <= k <= legs.len(),
    ensures
        in_turn(between_pairs(legs, k)),
    decreases k,
{
    if k > 0 {
        let n = legs.len() as int;
        let rest = between_pairs(legs, k - 1);
        let more = later_rows(k - 1, legs, n);
        lemma_between_in_turn(legs, k - 1);
        lemma_later_in_turn(k - 1, legs, n);
        assert forall|p: Pair, q: Pair| #[trigger]
            rest.contains(p) && #[trigger] more.contains(q) implies goes_first(p, q) by {
            lemma_between(legs, k - 1, p);
            lemma_later_rows(k - 1, legs, n, q);
        }
        lemma_in_turn_add(rest, more);
    }
}

proof fn lemma_within_in_turn(legs: Seq<Seq<Aabb>>, k: int)
    requires
        legs.len() <= usize::MAX,
        forall|f: int| 0 <= f < legs.len() ==> (#[trigger] legs[f]).len() <= usize::MAX,
        0 <= k <= legs.len(),
    ensures
        in_turn(within_pairs(legs, k)),
    decreases k,
{
    if k > 0 {
        let n = legs[k - 1].len() as int;
        let rest = within_pairs(legs, k - 1);
        let more = leg_rows(Pairing::Within, k - 1, k - 1, legs, n);
        lemma_within_in_turn(legs, k - 1);
        lemma_leg_rows_in_turn(Pairing::Within, k - 1, k - 1, legs, n);
        assert forall|p: Pair, q: Pair| #[trigger]
            rest.contains(p) && #[trigger] more.contains(q) implies goes_first(p, q) by {
            lemma_within(legs, k - 1, p);
            lemma_leg_rows(Pairing::Within, k - 1, k - 1, legs, n, q);
        }
        lemma_in_turn_add(rest, more);
    }
}

proof fn lemma_bend_in_turn(fi: int, ei: int, one: Aabb, legs: Seq<Seq<Aabb>>, k: int)
    requires
        0 <= fi <= usize::MAX,
        0 <= ei <= usize::MAX,
        legs.len() <= usize::MAX,
        forall|f: int| 0 <= f < legs.len() ==> (#[trigger] legs[f]).len() <= usize::MAX,
        0 <= k <= legs.len(),
    ensures
        in_turn(bend_rows(fi, ei, one, legs, k)),
    decreases k,
{
    if k > 0 {
        let n = legs[k - 1].len() as int;
        let rest = bend_rows(fi, ei, one, legs, k - 1);
        let more = row(Pairing::Elbow, fi, ei, k - 1, one, legs[k - 1], n);
        lemma_bend_in_turn(fi, ei, one, legs, k - 1);
        lemma_row_in_turn(Pairing::Elbow, fi, ei, k - 1, one, legs[k - 1], n);
        assert forall|p: Pair, q: Pair| #[trigger]
            rest.contains(p) && #[trigger] more.contains(q) implies goes_first(p, q) by {
            lemma_bend_rows(fi, ei, one, legs, k - 1, p);
            lemma_row(Pairing::Elbow, fi, ei, k - 1, one, legs[k - 1], n, q);
        }
        lemma_in_turn_add(rest, more);
    }
}

proof fn lemma_bends_in_turn(fi: int, elbows: Seq<Seq<Aabb>>, legs: Seq<Seq<Aabb>>, k: int)
    requires
        can_be_counted(legs, elbows),
        0 <= fi < legs.len(),
        0 <= k <= elbows[fi].len(),
    ensures
        in_turn(bends_rows(fi, elbows, legs, k)),
    decreases k,
{
    if k > 0 {
        let n = legs.len() as int;
        let one = elbows[fi][k - 1];
        let rest = bends_rows(fi, elbows, legs, k - 1);
        let more = bend_rows(fi, k - 1, one, legs, n);
        assert(elbows[fi].len() <= usize::MAX);
        lemma_bends_in_turn(fi, elbows, legs, k - 1);
        lemma_bend_in_turn(fi, k - 1, one, legs, n);
        assert forall|p: Pair, q: Pair| #[trigger]
            rest.contains(p) && #[trigger] more.contains(q) implies goes_first(p, q) by {
            lemma_bends_rows(fi, elbows, legs, k - 1, p);
            lemma_bend_rows(fi, k - 1, one, legs, n, q);
        }
        lemma_in_turn_add(rest, more);
    }
}

proof fn lemma_elbows_in_turn(elbows: Seq<Seq<Aabb>>, legs: Seq<Seq<Aabb>>, k: int)
    requires
        can_be_counted(legs, elbows),
        0 <= k <= legs.len(),
    ensures
        in_turn(elbow_pairs(elbows, legs, k)),
    decreases k,
{
    if k > 0 {
        let n = elbows[k - 1].len() as int;
        let rest = elbow_pairs(elbows, legs, k - 1);
        let more = bends_rows(k - 1, elbows, legs, n);
        lemma_elbows_in_turn(elbows, legs, k - 1);
        lemma_bends_in_turn(k - 1, elbows, legs, n);
        assert forall|p: Pair, q: Pair| #[trigger]
            rest.contains(p) && #[trigger] more.contains(q) implies goes_first(p, q) by {
            lemma_elbows(elbows, legs, k - 1, p);
            lemma_bends_rows(k - 1, elbows, legs, n, q);
        }
        lemma_in_turn_add(rest, more);
    }
}

/// Pairs are looked at in turn, each once: legs of different filaments, then legs
/// of one filament, then bends and legs, each by their places.
pub proof fn law_pairs_come_in_turn(legs: Seq<Seq<Aabb>>, elbows: Seq<Seq<Aabb>>, extra: bool)
    requires
        can_be_counted(legs, elbows),
    ensures
        in_turn(all_pairs(legs, elbows, extra)),
{
    let n = legs.len() as int;
    let a = between_pairs(legs, n);
    let b = within_pairs(legs, n);
    let c = elbow_pairs(elbows, legs, n);
    lemma_between_in_turn(legs, n);
    lemma_within_in_turn(legs, n);
    lemma_elbows_in_turn(elbows, legs, n);
    assert forall|p: Pair, q: Pair| #[trigger] a.contains(p) && #[trigger] b.contains(
        q,
    ) implies goes_first(p, q) by {
        lemma_between(legs, n, p);
        lemma_within(legs, n, q);
    }
    lemma_in_turn_add(a, b);
    assert forall|p: Pair, q: Pair| #[trigger] (a + b).contains(p) && #[trigger] c.contains(
        q,
    ) implies goes_first(p, q) by {
        lemma_contains_add(a, b, p);
        lemma_between(legs, n, p);
        lemma_within(legs, n, p);
        lemma_elbows(elbows, legs, n, q);
    }
    lemma_in_turn_add(a + b, c);
}

// ── Which crossings become windows ──────────────────────────────────────────

/// The first member of a pair: a leg, or a bend where the pair is of one.
pub open spec fn first_of(p: Pair) -> Member {
    if p.kind is Elbow {
        Member::Elbow { f: p.fi, i: p.i }
    } else {
        Member::Leg { f: p.fi, i: p.i }
    }
}

/// The second member of a pair: always a leg.
pub open spec fn second_of(p: Pair) -> Member {
    Member::Leg { f: p.fj, i: p.j }
}

/// Whether two crossings have a member in common.
pub open spec fn share_a_member(c: Crossing, d: Crossing) -> bool {
    first_of(c.pair) == first_of(d.pair) || first_of(c.pair) == second_of(d.pair) || second_of(
        c.pair,
    ) == first_of(d.pair) || second_of(c.pair) == second_of(d.pair)
}

/// Whether a window's centre is further from both ends of a leg than the window
/// reaches.
pub open spec fn off_both_ends(along: Real, radius: Real, last: Real) -> bool {
    radius.below(along) && along.below(last)
}

/// Whether crossing `k` is fit to be a window, given those that became windows
/// before it: its curve has enough points; legs are not all but parallel (0.985);
/// a curve on a bend stays on it; and where rims are to be safe, the window keeps
/// off the ends of legs and off every earlier window on one of its members.
pub open spec fn fit_for_window(
    all: Seq<Crossing>,
    near: Seq<Vec<Nearness>>,
    strict: bool,
    origins: Seq<usize>,
    k: int,
) -> bool {
    let c = all[k];
    let parallel = (Real { bits: 0x3fef851eb851eb85 }).below(c.cos.unsigned());
    &&& c.count >= (if c.pair.kind is Between && !strict {
        6int
    } else {
        12
    })
    &&& c.pair.kind is Within ==> !parallel
    &&& c.pair.kind is Between && strict ==> !parallel
    &&& c.pair.kind is Elbow ==> c.in_arc
    &&& strict ==> off_both_ends(c.second_rim.along, c.second_rim.radius, c.second_rim.last)
    &&& strict && !(c.pair.kind is Elbow) ==> off_both_ends(
        c.first_rim.along,
        c.first_rim.radius,
        c.first_rim.last,
    )
    &&& strict ==> forall|x: int|
        0 <= x < origins.len() && share_a_member(c, all[(#[trigger] origins[x]) as int])
            ==> !near[k]@[origins[x] as int].distance.below(near[k]@[origins[x] as int].reach)
}

/// Where the marks of a list of windows come from.
proof fn lemma_log_origins(
    all: Seq<Crossing>,
    near: Seq<Vec<Nearness>>,
    strict: bool,
    n: int,
)
    requires
        0 <= n <= all.len(),
        all.len() <= u32::MAX,
    ensures
        ({
            let state = imprints(all, near, strict, n);
            &&& state.log.len() == 2 * state.origins.len()
            &&& forall|x: int|
                0 <= x < state.origins.len() ==> (#[trigger] state.origins[x]) < n
            &&& forall|i: int|
                0 <= i < state.log.len() ==> (#[trigger] state.log[i]).origin
                    == state.origins[i / 2] && state.log[i].mark.crossing == i / 2
                    && state.log[i].member == (if i % 2 == 0 {
                    all[state.origins[i / 2] as int].pair.one()
                } else {
                    all[state.origins[i / 2] as int].pair.other()
                }) && state.log[i].mark.facing == (if i % 2 == 0 {
                    all[state.origins[i / 2] as int].first_facing
                } else {
                    all[state.origins[i / 2] as int].second_facing
                })
        }),
    decreases n,
{
    if n > 0 {
        let was = imprints(all, near, strict, n - 1);
        let now = imprints(all, near, strict, n);
        lemma_log_origins(all, near, strict, n - 1);
        law_windows_are_cut_twice(all, near, strict, n - 1, 0);
        assert forall|i: int| 0 <= i < now.log.len() implies (#[trigger] now.log[i]).origin
            == now.origins[i / 2] && now.log[i].mark.crossing == i / 2 && now.log[i].member == (
        if i % 2 == 0 {
            all[now.origins[i / 2] as int].pair.one()
        } else {
            all[now.origins[i / 2] as int].pair.other()
        }) && now.log[i].mark.facing == (if i % 2 == 0 {
            all[now.origins[i / 2] as int].first_facing
        } else {
            all[now.origins[i / 2] as int].second_facing
        }) by {
            if i < was.log.len() {
                assert(now.log[i] == was.log[i]);
                assert(now.origins[i / 2] == was.origins[i / 2]);
            }
        }
        assert forall|x: int| 0 <= x < now.origins.len() implies (#[trigger] now.origins[x])
            < n by {
            if x < was.origins.len() {
                assert(now.origins[x] == was.origins[x]);
            }
        }
    }
}

/// Crossings are taken in turn, and each becomes a window exactly if it is fit to
/// be one given the windows before it; the window is cut into both members that
/// cross there, into each as it faces on it.
pub proof fn law_windows_are_the_fit_crossings(
    all: Seq<Crossing>,
    near: Seq<Vec<Nearness>>,
    strict: bool,
    n: int,
)
    requires
        0 <= n < all.len(),
        all.len() <= u32::MAX,
    ensures
        ({
            let was = imprints(all, near, strict, n);
            let now = imprints(all, near, strict, n + 1);
            let id = was.origins.len() as int;
            &&& imprints(all, near, strict, 0).origins.len() == 0
            &&& imprints(all, near, strict, 0).log.len() == 0
            &&& !fit_for_window(all, near, strict, was.origins, n) ==> now == was
            &&& fit_for_window(all, near, strict, was.origins, n) ==> {
                &&& now.origins == was.origins.push(n as usize)
                &&& now.log.len() == was.log.len() + 2
                &&& now.log.take(was.log.len() as int) == was.log
                &&& now.log[2 * id].member == first_of(all[n].pair)
                &&& now.log[2 * id].mark.facing == all[n].first_facing
                &&& now.log[2 * id].mark.crossing == id
                &&& now.log[2 * id + 1].member == second_of(all[n].pair)
                &&& now.log[2 * id + 1].mark.facing == all[n].second_facing
                &&& now.log[2 * id + 1].mark.crossing == id
            }
        }),
{
    let was = imprints(all, near, strict, n);
    let now = imprints(all, near, strict, n + 1);
    let c = all[n];
    lemma_log_origins(all, near, strict, n);
    law_windows_are_cut_twice(all, near, strict, n, 0);
    let one = crate::scaffold::overlaps(was.log, c.pair.one(), near, n);
    let other = crate::scaffold::overlaps(was.log, c.pair.other(), near, n);
    if forall|x: int|
        0 <= x < was.origins.len() && share_a_member(c, all[(#[trigger] was.origins[x]) as int])
            ==> !near[n]@[was.origins[x] as int].distance.below(
            near[n]@[was.origins[x] as int].reach,
        ) {
        assert(!one && !other) by {
            if one {
                let i = choose|i: int|
                    0 <= i < was.log.len() && (#[trigger] was.log[i]).member == c.pair.one() && {
                        let pair = near[n]@[was.log[i].origin as int];
                        pair.distance.below(pair.reach)
                    };
                assert(share_a_member(c, all[was.origins[i / 2] as int]));
            }
            if other {
                let i = choose|i: int|
                    0 <= i < was.log.len() && (#[trigger] was.log[i]).member == c.pair.other() && {
                        let pair = near[n]@[was.log[i].origin as int];
                        pair.distance.below(pair.reach)
                    };
                assert(share_a_member(c, all[was.origins[i / 2] as int]));
            }
        }
    } else {
        let x = choose|x: int|
            0 <= x < was.origins.len() && share_a_member(
                c,
                all[(#[trigger] was.origins[x]) as int],
            ) && near[n]@[was.origins[x] as int].distance.below(
                near[n]@[was.origins[x] as int].reach,
            );
        let d = all[was.origins[x] as int];
        assert((2 * x) / 2 == x && (2 * x + 1) / 2 == x && (2 * x) % 2 == 0 && (2 * x + 1) % 2
            == 1);
        assert(was.log[2 * x].member == d.pair.one());
        assert(was.log[2 * x + 1].member == d.pair.other());
        assert(one || other);
    }
    if now.log.len() > was.log.len() {
        assert(now.log.take(was.log.len() as int) =~= was.log);
    }
}

} // verus!
