//! Polylines by the numbers of their samples: thinning, ordering, grafting.
//!
//! The functions here never see a coordinate.  They take lists of sample
//! numbers together with the distances that were measured between samples, and
//! give lists of sample numbers back.

use vstd::prelude::*;

use crate::scalar::Real;

verus! {

/// When two samples are far enough apart to stand side by side.
#[derive(Clone, Copy, Debug, PartialEq, Eq, Structural)]
pub enum Apart {
    /// Their distance is above the limit.
    Above(Real),
    /// Their distance is not below the limit.
    NotBelow(Real),
}

impl Apart {
    /// Whether a distance satisfies the rule.
    pub open spec fn allows(self, distance: Real) -> bool {
        match self {
            Apart::Above(limit) => limit.below(distance),
            Apart::NotBelow(limit) => !distance.below(limit),
        }
    }

    /// Whether a distance satisfies the rule.
    pub fn holds(self, distance: Real) -> (r: bool)
        ensures
            r == self.allows(distance),
    {
        match self {
            Apart::Above(limit) => limit.lt(distance),
            Apart::NotBelow(limit) => !distance.lt(limit),
        }
    }
}

/// Whether a table of distances covers samples `0..n` against each other.
pub open spec fn covers(table: Seq<Vec<Real>>, n: int) -> bool {
    table.len() >= n && forall|i: int| 0 <= i < n ==> (#[trigger] table[i])@.len() >= n
}

/// Whether every number of a list is below `n`.
pub open spec fn all_below(list: Seq<usize>, n: int) -> bool {
    forall|i: int| 0 <= i < list.len() ==> (#[trigger] list[i]) < n
}

/// The first `k` numbers of a list without those too close to the one kept
/// before them.
pub open spec fn thinned(table: Seq<Vec<Real>>, rule: Apart, list: Seq<usize>, k: int) -> Seq<usize>
    decreases k,
{
    if k <= 0 {
        Seq::empty()
    } else {
        let kept = thinned(table, rule, list, k - 1);
        if kept.len() == 0 || rule.allows(table[kept.last() as int]@[list[k - 1] as int]) {
            kept.push(list[k - 1])
        } else {
            kept
        }
    }
}

/// What is kept comes from the list, in its order.
pub proof fn lemma_thinned(table: Seq<Vec<Real>>, rule: Apart, list: Seq<usize>, k: int, n: int)
    requires
        0 <= k <= list.len(),
        all_below(list, n),
    ensures
        thinned(table, rule, list, k).len() <= k,
        all_below(thinned(table, rule, list, k), n),
        k > 0 ==> thinned(table, rule, list, k).len() > 0,
        k > 0 ==> thinned(table, rule, list, k)[0] == list[0],
    decreases k,
{
    if k > 0 {
        lemma_thinned(table, rule, list, k - 1, n);
    }
}

/// Any two numbers that stand side by side after thinning are far enough
/// apart, and nothing was kept that was not in the list.
pub proof fn law_thinned_is_spaced(
    table: Seq<Vec<Real>>,
    rule: Apart,
    list: Seq<usize>,
    k: int,
    i: int,
)
    requires
        0 <= k <= list.len(),
        0 <= i < thinned(table, rule, list, k).len(),
    ensures
        list.contains(thinned(table, rule, list, k)[i]),
        i > 0 ==> rule.allows(
            table[thinned(table, rule, list, k)[i - 1] as int]@[thinned(table, rule, list, k)[i] as int],
        ),
    decreases k,
{
    if k > 0 {
        let kept = thinned(table, rule, list, k - 1);
        if i < kept.len() {
            law_thinned_is_spaced(table, rule, list, k - 1, i);
        } else {
            assert(list.contains(list[k - 1]));
        }
    }
}

/// Drop from a list every number too close to the one kept before it.
pub fn thin(table: &Vec<Vec<Real>>, rule: Apart, list: &[usize]) -> (kept: Vec<usize>)
    requires
        exists|n: int| #[trigger] covers(table@, n) && all_below(list@, n),
    ensures
        kept@ == thinned(table@, rule, list@, list@.len() as int),
{
    let ghost n = choose|n: int| #[trigger] covers(table@, n) && all_below(list@, n);
    let mut kept: Vec<usize> = Vec::new();
    let mut k: usize = 0;
    while k < list.len()
        invariant
            covers(table@, n),
            all_below(list@, n),
            k <= list@.len(),
            kept@ == thinned(table@, rule, list@, k as int),
        decreases list@.len() - k,
    {
        proof {
            lemma_thinned(table@, rule, list@, k as int, n);
        }
        let next: usize = list[k];
        if kept.len() == 0 {
            kept.push(next);
        } else {
            let last: usize = kept[kept.len() - 1];
            assert(kept@.last() == last);
            assert(table@[last as int]@.len() >= n);
            if rule.holds(table[last][next]) {
                kept.push(next);
            }
        }
        k += 1;
    }
    kept
}

/// Whether a number is closer than a limit to one of several others.
pub open spec fn beside_any(table: Seq<Vec<Real>>, limit: Real, kept: Seq<usize>, x: usize) -> bool {
    exists|i: int|
        0 <= i < kept.len() && table[(#[trigger] kept[i]) as int]@[x as int].below(limit)
}

/// The samples below `k` without those on the spot of an earlier one that was
/// kept.
pub open spec fn singled(table: Seq<Vec<Real>>, limit: Real, k: int) -> Seq<usize>
    decreases k,
{
    if k <= 0 {
        Seq::empty()
    } else {
        let kept = singled(table, limit, k - 1);
        if beside_any(table, limit, kept, (k - 1) as usize) {
            kept
        } else {
            kept.push((k - 1) as usize)
        }
    }
}

/// No two of the samples kept are on one spot, and each that was left out is
/// on the spot of one that was kept.
pub proof fn law_singled_is_spread(table: Seq<Vec<Real>>, limit: Real, k: int)
    requires
        0 <= k <= usize::MAX,
    ensures
        all_below(singled(table, limit, k), k),
        ascending(singled(table, limit, k)),
        forall|a: int, b: int|
            #![trigger singled(table, limit, k)[a], singled(table, limit, k)[b]]
            0 <= a < b < singled(table, limit, k).len() ==> !table[singled(
                table,
                limit,
                k,
            )[a] as int]@[singled(table, limit, k)[b] as int].below(limit),
        forall|x: usize|
            x < k ==> #[trigger] singled(table, limit, k).contains(x) || beside_any(
                table,
                limit,
                singled(table, limit, k),
                x,
            ),
    decreases k,
{
    if k > 0 {
        law_singled_is_spread(table, limit, k - 1);
        let before = singled(table, limit, k - 1);
        let now = singled(table, limit, k);
        assert forall|x: usize| x < k implies #[trigger] now.contains(x) || beside_any(
            table,
            limit,
            now,
            x,
        ) by {
            if x < k - 1 {
                if before.contains(x) {
                    let t = choose|t: int| 0 <= t < before.len() && before[t] == x;
                    assert(now[t] == x);
                } else {
                    let t = choose|t: int|
                        0 <= t < before.len() && table[(#[trigger] before[t]) as int]@[x as int].below(
                            limit,
                        );
                    assert(now[t] == before[t]);
                }
            } else if !beside_any(table, limit, before, x) {
                assert(now[now.len() - 1] == x);
            }
        }
    }
}

/// The samples below `n` without those on the spot of an earlier one.
pub fn single_out(table: &Vec<Vec<Real>>, limit: Real, n: usize) -> (kept: Vec<usize>)
    requires
        covers(table@, n as int),
    ensures
        kept@ == singled(table@, limit, n as int),
{
    let mut kept: Vec<usize> = Vec::new();
    let mut k: usize = 0;
    while k < n
        invariant
            covers(table@, n as int),
            k <= n,
            kept@ == singled(table@, limit, k as int),
        decreases n - k,
    {
        proof {
            law_singled_is_spread(table@, limit, k as int);
        }
        let mut beside = false;
        let mut i: usize = 0;
        while i < kept.len()
            invariant
                covers(table@, n as int),
                k < n,
                all_below(kept@, k as int),
                i <= kept@.len(),
                beside == (exists|j: int|
                    0 <= j < i && table@[(#[trigger] kept@[j]) as int]@[k as int].below(limit)),
            decreases kept@.len() - i,
        {
            let other: usize = kept[i];
            assert(kept@[i as int] < k);
            assert(table@[other as int]@.len() >= n);
            if table[other][k].lt(limit) {
                assert(table@[kept@[i as int] as int]@[k as int].below(limit));
                beside = true;
            }
            i += 1;
        }
        if !beside {
            kept.push(k);
        }
        k += 1;
    }
    kept
}

/// Where a sample stands along a polyline: on which of its pieces, and how far
/// along that piece.
#[derive(Clone, Copy, Debug, PartialEq, Eq, Structural)]
pub struct Place {
    /// The number of the piece.
    pub piece: usize,
    /// How far along the piece.
    pub along: Real,
}

impl Place {
    /// Whether the first comes before the second.
    pub open spec fn before(self, other: Place) -> bool {
        self.piece < other.piece || (self.piece == other.piece && self.along.below(other.along))
    }

    /// Whether the first comes before the second.
    pub fn precedes(self, other: Place) -> (r: bool)
        ensures
            r == self.before(other),
    {
        self.piece < other.piece || (self.piece == other.piece && self.along.lt(other.along))
    }
}

/// Whether every number of a list has a place, and none of them is without a
/// position.
pub open spec fn placed(places: Seq<Place>, list: Seq<usize>) -> bool {
    forall|i: int|
        0 <= i < list.len() ==> (#[trigger] list[i]) < places.len()
            && !places[list[i] as int].along.nan()
}

/// Whether one number comes before another: by its place, and by the numbers
/// themselves where the places are the same.
pub open spec fn comes_first(places: Seq<Place>, a: usize, b: usize) -> bool {
    places[a as int].before(places[b as int]) || (!places[b as int].before(places[a as int]) && a
        < b)
}

/// Whether a list is in order of place.
pub open spec fn in_order(places: Seq<Place>, list: Seq<usize>) -> bool {
    forall|i: int, j: int|
        0 <= i < j < list.len() ==> comes_first(places, #[trigger] list[i], #[trigger] list[j])
}

/// Whether two lists hold the same numbers.
pub open spec fn same_numbers(a: Seq<usize>, b: Seq<usize>) -> bool {
    forall|x: usize| #[trigger] a.contains(x) <==> b.contains(x)
}

/// Whether a list counts upwards.
pub open spec fn ascending(list: Seq<usize>) -> bool {
    forall|i: int, j: int| 0 <= i < j < list.len() ==> (#[trigger] list[i]) < (#[trigger] list[j])
}

/// A list put in order of place.
pub open spec fn ordered(places: Seq<Place>, list: Seq<usize>) -> Seq<usize> {
    choose|s: Seq<usize>| in_order(places, s) && #[trigger] same_numbers(s, list)
}

/// Two lists of the same numbers that are both in order are the same list.
pub proof fn law_order_is_unique(places: Seq<Place>, a: Seq<usize>, b: Seq<usize>)
    requires
        placed(places, a),
        in_order(places, a),
        in_order(places, b),
        same_numbers(a, b),
    ensures
        a == b,
    decreases a.len(),
{
    if a.len() == 0 {
        if b.len() > 0 {
            assert(b.contains(b[0]));
            assert(a.contains(b[0]));
        }
        assert(a =~= b);
    } else {
        assert(a.contains(a[0]));
        assert(b.contains(a[0]));
        assert(b.contains(b[0]));
        assert(a.contains(b[0]));
        let i = choose|i: int| 0 <= i < a.len() && a[i] == b[0];
        let j = choose|j: int| 0 <= j < b.len() && b[j] == a[0];
        if i != 0 {
            assert(comes_first(places, a[0], a[i]));
            if j != 0 {
                assert(comes_first(places, b[0], b[j]));
            }
        }
        assert(a[0] == b[0]);
        let a1 = a.subrange(1, a.len() as int);
        let b1 = b.subrange(1, b.len() as int);
        assert(placed(places, a1)) by {
            assert forall|i: int| 0 <= i < a1.len() implies (#[trigger] a1[i]) < places.len()
                && !places[a1[i] as int].along.nan() by {
                assert(a1[i] == a[i + 1]);
            }
        }
        assert(in_order(places, a1));
        assert(in_order(places, b1));
        assert forall|x: usize| #[trigger] a1.contains(x) <==> b1.contains(x) by {
            lemma_rest_contains(places, a, x);
            lemma_rest_contains(places, b, x);
        }
        law_order_is_unique(places, a1, b1);
        assert(a =~= seq![a[0]] + a1);
        assert(b =~= seq![b[0]] + b1);
    }
}

/// What an ordered list holds after its first number.
proof fn lemma_rest_contains(places: Seq<Place>, a: Seq<usize>, x: usize)
    requires
        a.len() > 0,
        in_order(places, a),
    ensures
        a.subrange(1, a.len() as int).contains(x) <==> a.contains(x) && x != a[0],
{
    let a1 = a.subrange(1, a.len() as int);
    if a1.contains(x) {
        let i = choose|i: int| 0 <= i < a1.len() && a1[i] == x;
        assert(a[i + 1] == x);
        assert(comes_first(places, a[0], a[i + 1]));
        assert(a.contains(x));
    }
    if a.contains(x) && x != a[0] {
        let i = choose|i: int| 0 <= i < a.len() && a[i] == x;
        assert(a1[i - 1] == x);
    }
}

/// A list can be put in order.
pub proof fn lemma_ordered_is_there(places: Seq<Place>, list: Seq<usize>)
    requires
        ascending(list),
        placed(places, list),
    ensures
        in_order(places, ordered(places, list)),
        same_numbers(ordered(places, list), list),
    decreases list.len(),
{
    if list.len() == 0 {
        assert(in_order(places, list) && same_numbers(list, list));
    } else {
        let less = list.drop_last();
        let x = list.last();
        assert(ascending(less));
        assert(placed(places, less)) by {
            assert forall|i: int| 0 <= i < less.len() implies (#[trigger] less[i]) < places.len()
                && !places[less[i] as int].along.nan() by {
                assert(less[i] == list[i]);
            }
        }
        lemma_ordered_is_there(places, less);
        let sorted = ordered(places, less);
        lemma_sorted_below(places, sorted, less, list);
        let at = place_for(places, sorted, x, sorted.len() as int);
        lemma_place_for(places, sorted, x, sorted.len() as int);
        let whole = sorted.insert(at, x);
        assert forall|i: int, j: int| 0 <= i < j < whole.len() implies comes_first(
            places,
            #[trigger] whole[i],
            #[trigger] whole[j],
        ) by {
            let hi = if i < at { i } else { i - 1 };
            let hj = if j < at { j } else { j - 1 };
            if i != at && j != at {
                assert(comes_first(places, sorted[hi], sorted[hj]));
            } else if j == at {
                assert(sorted[i] < x);
                assert(!places[x as int].before(places[sorted[at - 1] as int]));
                if i < at - 1 {
                    assert(comes_first(places, sorted[i], sorted[at - 1]));
                }
                assert(placed(places, list));
                assert(list.contains(sorted[i]));
                let a = choose|a: int| 0 <= a < list.len() && list[a] == sorted[i];
                assert(!places[list[a] as int].along.nan());
                assert(list.contains(sorted[at - 1]));
                let b = choose|b: int| 0 <= b < list.len() && list[b] == sorted[at - 1];
                assert(!places[list[b] as int].along.nan());
                assert(!places[list[list.len() - 1] as int].along.nan());
            } else {
                assert(places[x as int].before(places[sorted[hj] as int]));
            }
        }
        assert forall|y: usize| #[trigger] whole.contains(y) <==> list.contains(y) by {
            assert(sorted.contains(y) <==> less.contains(y));
            if whole.contains(y) {
                let i = choose|i: int| 0 <= i < whole.len() && whole[i] == y;
                if i == at {
                    assert(list[list.len() - 1] == y);
                } else {
                    let h = if i < at { i } else { i - 1 };
                    assert(sorted[h] == y);
                    let m = choose|m: int| 0 <= m < less.len() && less[m] == y;
                    assert(list[m] == y);
                }
            }
            if list.contains(y) {
                let m = choose|m: int| 0 <= m < list.len() && list[m] == y;
                if m == list.len() - 1 {
                    assert(whole[at] == y);
                } else {
                    assert(less[m] == y);
                    let h = choose|h: int| 0 <= h < sorted.len() && sorted[h] == y;
                    let i = if h < at { h } else { h + 1 };
                    assert(whole[i] == y);
                }
            }
        }
        assert(in_order(places, whole) && same_numbers(whole, list));
    }
}

/// Where a number goes among the first `k` of an ordered list: behind all that
/// it does not come before.
spec fn place_for(places: Seq<Place>, sorted: Seq<usize>, x: usize, k: int) -> int
    decreases k,
{
    if k <= 0 {
        0
    } else if places[x as int].before(places[sorted[k - 1] as int]) {
        place_for(places, sorted, x, k - 1)
    } else {
        k
    }
}

proof fn lemma_place_for(places: Seq<Place>, sorted: Seq<usize>, x: usize, k: int)
    requires
        0 <= k <= sorted.len(),
    ensures
        0 <= place_for(places, sorted, x, k) <= k,
        forall|i: int|
            place_for(places, sorted, x, k) <= i < k ==> places[x as int].before(
                places[(#[trigger] sorted[i]) as int],
            ),
        place_for(places, sorted, x, k) > 0 ==> !places[x as int].before(
            places[sorted[place_for(places, sorted, x, k) - 1] as int],
        ),
    decreases k,
{
    if k > 0 && places[x as int].before(places[sorted[k - 1] as int]) {
        lemma_place_for(places, sorted, x, k - 1);
    }
}

proof fn lemma_sorted_below(
    places: Seq<Place>,
    sorted: Seq<usize>,
    less: Seq<usize>,
    list: Seq<usize>,
)
    requires
        list.len() > 0,
        less == list.drop_last(),
        ascending(list),
        same_numbers(sorted, less),
    ensures
        forall|i: int|
            0 <= i < sorted.len() ==> (#[trigger] sorted[i]) < list.last() && list.contains(
                sorted[i],
            ),
{
    assert forall|i: int| 0 <= i < sorted.len() implies (#[trigger] sorted[i]) < list.last()
        && list.contains(sorted[i]) by {
        assert(sorted.contains(sorted[i]));
        assert(less.contains(sorted[i]));
        let m = choose|m: int| 0 <= m < less.len() && less[m] == sorted[i];
        assert(list[m] < list[list.len() - 1]);
    }
}

/// Put the numbers of a list in order of their places; where places are the
/// same, the smaller number comes first.
pub fn arrange_places(places: &[Place], list: &[usize]) -> (sorted: Vec<usize>)
    requires
        ascending(list@),
        placed(places@, list@),
    ensures
        sorted@ == ordered(places@, list@),
        in_order(places@, sorted@),
        same_numbers(sorted@, list@),
        sorted@.len() == list@.len(),
{
    let mut sorted: Vec<usize> = Vec::new();
    let mut k: usize = 0;
    assert(list@.subrange(0, 0) =~= sorted@);
    while k < list.len()
        invariant
            placed(places@, list@),
            ascending(list@),
            k <= list@.len(),
            sorted@.len() == k,
            in_order(places@, sorted@),
            placed(places@, sorted@),
            same_numbers(sorted@, list@.subrange(0, k as int)),
        decreases list@.len() - k,
    {
        let next: usize = list[k];
        let mut at: usize = sorted.len();
        let ghost held = sorted@;
        while at > 0 && places[next].precedes(places[sorted[at - 1]])
            invariant
                placed(places@, sorted@),
                in_order(places@, sorted@),
                next < places@.len(),
                at <= sorted@.len(),
                forall|i: int|
                    at <= i < sorted@.len() ==> places@[next as int].before(
                        places@[(#[trigger] sorted@[i]) as int],
                    ),
            decreases at,
        {
            at -= 1;
        }
        assert forall|i: int| 0 <= i < at implies comes_first(
            places@,
            #[trigger] held[i],
            next,
        ) by {
            assert(held.contains(held[i]));
            assert(list@.subrange(0, k as int).contains(held[i]));
            let m = choose|m: int| 0 <= m < k && list@.subrange(0, k as int)[m] == held[i];
            assert(list@[m] < list@[k as int]);
            if i < at - 1 {
                assert(comes_first(places@, held[i], held[at - 1]));
            }
        }
        sorted.insert(at, next);
        proof {
            assert(sorted@ =~= held.insert(at as int, next));
            assert forall|i: int, j: int| 0 <= i < j < sorted@.len() implies comes_first(
                places@,
                #[trigger] sorted@[i],
                #[trigger] sorted@[j],
            ) by {
                let hi = if i < at { i } else { i - 1 };
                let hj = if j < at { j } else { j - 1 };
                if i != at && j != at {
                    assert(comes_first(places@, held[hi], held[hj]));
                } else if j == at {
                    assert(comes_first(places@, held[i], next));
                } else {
                    assert(places@[next as int].before(places@[held[hj] as int]));
                }
            }
            let now = list@.subrange(0, k + 1);
            let was = list@.subrange(0, k as int);
            assert(now =~= was.push(next));
            assert forall|x: usize| #[trigger] sorted@.contains(x) <==> now.contains(x) by {
                assert(held.contains(x) <==> was.contains(x));
                if sorted@.contains(x) {
                    let i = choose|i: int| 0 <= i < sorted@.len() && sorted@[i] == x;
                    if i == at {
                        assert(now[k as int] == x);
                    } else {
                        let h = if i < at { i } else { i - 1 };
                        assert(held[h] == x);
                        let m = choose|m: int| 0 <= m < was.len() && was[m] == x;
                        assert(now[m] == x);
                    }
                }
                if now.contains(x) {
                    let m = choose|m: int| 0 <= m < now.len() && now[m] == x;
                    if m == k {
                        assert(sorted@[at as int] == x);
                    } else {
                        assert(was[m] == x);
                        assert(held.contains(x));
                        let h = choose|h: int| 0 <= h < held.len() && held[h] == x;
                        let i = if h < at { h } else { h + 1 };
                        assert(sorted@[i] == x);
                    }
                }
            }
            assert forall|i: int| 0 <= i < sorted@.len() implies (#[trigger] sorted@[i])
                < places@.len() && !places@[sorted@[i] as int].along.nan() by {
                let h = if i < at { i } else { i - 1 };
                if i != at {
                    assert(held[h] < places@.len());
                }
            }
        }
        k += 1;
    }
    assert(list@.subrange(0, list@.len() as int) =~= list@);
    proof {
        assert(same_numbers(sorted@, list@));
        let other = ordered(places@, list@);
        assert forall|x: usize| #[trigger] sorted@.contains(x) <==> other.contains(x) by {
            assert(sorted@.contains(x) <==> list@.contains(x));
            assert(other.contains(x) <==> list@.contains(x));
        }
        law_order_is_unique(places@, sorted@, other);
    }
    sorted
}

} // verus!
