//! What holds of the entities at every point while they are written.

use vstd::prelude::*;

use crate::bounds::{edge_curve_body, flag, use_body};
use crate::marks::{aside, lemma_characters, settled, unused};
use crate::script::{Glyph, Script, characters, decimal};
use crate::step::{GridKey, StepCurveKey, StepState, StepUse, Way, entity_line};
use crate::step_laws::{law_decimal_is_unambiguous, sound};

verus! {

/// The line of an entity, and an empty line if there is one after it.
pub open spec fn spaced_line(id: nat, body: Script, gap: bool) -> Seq<Glyph> {
    entity_line(id, body) + (if gap {
        characters("\n"@)
    } else {
        seq![]
    })
}

/// The text of entities, numbered from one, with empty lines after some.
pub open spec fn rendered(lines: Seq<Script>, gaps: Set<nat>) -> Seq<Glyph>
    decreases lines.len(),
{
    if lines.len() == 0 {
        seq![]
    } else {
        rendered(lines.drop_last(), gaps) + spaced_line(
            lines.len(),
            lines.last(),
            gaps.contains(lines.len()),
        )
    }
}

/// An empty line after the last entity comes after everything.
proof fn lemma_gap_at_end(lines: Seq<Script>, gaps: Set<nat>, n: nat)
    requires
        n > lines.len(),
    ensures
        rendered(lines, gaps.insert(n)) == rendered(lines, gaps),
    decreases lines.len(),
{
    if lines.len() > 0 {
        lemma_gap_at_end(lines.drop_last(), gaps, n);
    }
}

/// How many entities say the same.
pub open spec fn times_said(lines: Seq<Script>, body: Script) -> nat
    decreases lines.len(),
{
    if lines.len() == 0 {
        0
    } else {
        times_said(lines.drop_last(), body) + (if lines.last() == body {
            1nat
        } else {
            0
        })
    }
}

/// How many uses run along a curve, or against it.
pub open spec fn times_run(uses: Seq<StepUse>, curve: nat, same: bool) -> nat
    decreases uses.len(),
{
    if uses.len() == 0 {
        0
    } else {
        times_run(uses.drop_last(), curve, same) + (if uses.last().curve == curve
            && uses.last().same == same {
            1nat
        } else {
            0
        })
    }
}

/// Whether a text begins with some characters.
pub open spec fn opens_with(body: Script, x: Seq<char>) -> bool {
    body.glyphs.len() >= x.len() && body.glyphs.take(x.len() as int) == characters(x)
}

/// How many entities begin with some characters.
pub open spec fn times_opened(lines: Seq<Script>, x: Seq<char>) -> nat
    decreases lines.len(),
{
    if lines.len() == 0 {
        0
    } else {
        times_opened(lines.drop_last(), x) + (if opens_with(lines.last(), x) {
            1nat
        } else {
            0
        })
    }
}

/// How many products there are.
pub open spec fn products(lines: Seq<Script>) -> nat {
    times_opened(lines, "PRODUCT('"@)
}

/// How many links from a shape to a representation there are.
pub open spec fn links(lines: Seq<Script>) -> nat {
    times_opened(lines, "SHAPE_DEFINITION_REPRESENTATION(#"@)
}

/// One more entity, which may be a product or a link.
pub proof fn lemma_one_more(lines: Seq<Script>, body: Script)
    ensures
        products(lines.push(body)) == products(lines) + (if opens_with(body, "PRODUCT('"@) {
            1nat
        } else {
            0
        }),
        links(lines.push(body)) == links(lines) + (if opens_with(
            body,
            "SHAPE_DEFINITION_REPRESENTATION(#"@,
        ) {
            1nat
        } else {
            0
        }),
{
    assert(lines.push(body).drop_last() =~= lines);
}

/// What is neither a product nor a link adds none.
pub proof fn lemma_no_product(lines: Seq<Script>, body: Script)
    requires
        aside(body) || !unused(body),
    ensures
        products(lines.push(body)) == products(lines),
        links(lines.push(body)) == links(lines),
{
    lemma_one_more(lines, body);
    let x = "PRODUCT('"@;
    let y = "SHAPE_DEFINITION_REPRESENTATION(#"@;
    reveal_strlit("PRODUCT('");
    reveal_strlit("SHAPE_DEFINITION_REPRESENTATION(#");
    lemma_characters(x);
    lemma_characters(y);
    reveal(aside);
    if opens_with(body, x) {
        assert forall|i: int| 0 <= i < x.len() implies #[trigger] body.glyphs[i] == Glyph::Char(
            x[i] as u32,
        ) by {
            assert(body.glyphs.take(x.len() as int)[i] == characters(x)[i]);
        }
        assert(body.glyphs[0] == Glyph::Char('P' as u32));
        assert(body.glyphs[1] == Glyph::Char('R' as u32));
        assert(body.glyphs[7] == Glyph::Char('(' as u32));
    }
    if opens_with(body, y) {
        assert forall|i: int| 0 <= i < y.len() implies #[trigger] body.glyphs[i] == Glyph::Char(
            y[i] as u32,
        ) by {
            assert(body.glyphs.take(y.len() as int)[i] == characters(y)[i]);
        }
        assert(body.glyphs[0] == Glyph::Char('S' as u32));
        assert(body.glyphs[6] == Glyph::Char('D' as u32));
    }
}

/// A product adds one, and no link.
pub proof fn lemma_a_product(lines: Seq<Script>, body: Script)
    requires
        opens_with(body, "PRODUCT('"@),
    ensures
        products(lines.push(body)) == products(lines) + 1,
        links(lines.push(body)) == links(lines),
{
    lemma_one_more(lines, body);
    lemma_different_openings(body);
}

/// A link adds one, and no product.
pub proof fn lemma_a_link(lines: Seq<Script>, body: Script)
    requires
        opens_with(body, "SHAPE_DEFINITION_REPRESENTATION(#"@),
    ensures
        products(lines.push(body)) == products(lines),
        links(lines.push(body)) == links(lines) + 1,
{
    lemma_one_more(lines, body);
    lemma_different_openings(body);
}

/// Nothing is both a product and a link.
proof fn lemma_different_openings(body: Script)
    ensures
        !(opens_with(body, "PRODUCT('"@) && opens_with(
            body,
            "SHAPE_DEFINITION_REPRESENTATION(#"@,
        )),
{
    let x = "PRODUCT('"@;
    let y = "SHAPE_DEFINITION_REPRESENTATION(#"@;
    reveal_strlit("PRODUCT('");
    reveal_strlit("SHAPE_DEFINITION_REPRESENTATION(#");
    lemma_characters(x);
    lemma_characters(y);
    if opens_with(body, x) && opens_with(body, y) {
        assert(body.glyphs.take(x.len() as int)[0] == body.glyphs[0]);
        assert(body.glyphs.take(y.len() as int)[0] == body.glyphs[0]);
        lemma_code(x[0], y[0]);
    }
}

/// What a text begins with stays when more is added.
pub proof fn lemma_opens_on(x: Seq<char>)
    ensures
        opens_with(Script::empty().text(x), x),
        forall|s: Script, y: Seq<char>|
            opens_with(s, x) ==> #[trigger] opens_with(s.text(y), x),
        forall|s: Script, n: nat| opens_with(s, x) ==> #[trigger] opens_with(s.whole(n), x),
{
    lemma_characters(x);
    let t = Script::empty().text(x);
    assert(t.glyphs.take(x.len() as int) =~= characters(x));
    assert forall|s: Script, y: Seq<char>| opens_with(s, x) implies #[trigger] opens_with(
        s.text(y),
        x,
    ) by {
        assert(s.text(y).glyphs.take(x.len() as int) =~= s.glyphs.take(x.len() as int));
    }
    assert forall|s: Script, n: nat| opens_with(s, x) implies #[trigger] opens_with(
        s.whole(n),
        x,
    ) by {
        assert(opens_with(s.text(decimal(n)), x));
    }
}

/// Whether an entity is an edge curve.
pub open spec fn is_edge_curve(body: Script) -> bool {
    exists|from: nat, to: nat, curve: nat, same: bool|
        body == #[trigger] edge_curve_body(from, to, curve, same)
}

/// Whether a use is the first of its curve.
pub open spec fn is_first(uses: Seq<StepUse>, i: int) -> bool {
    forall|j: int| 0 <= j < i ==> (#[trigger] uses[j]).curve != uses[i].curve
}

/// How a later use of a curve goes, by the first: round a closed curve, the
/// other way; between ends, along the curve from where the first one started.
pub open spec fn follows(first: StepUse, later: StepUse) -> bool {
    match (first.way, later.way) {
        (Way::Round, Way::Round) => later.same == !first.same,
        (Way::From(p), Way::From(q)) => first.same && later.same == (p == q),
        _ => false,
    }
}

/// Whether a use is the one that an edge curve is remembered by.
pub open spec fn begun(key: StepCurveKey, start: usize, first: StepUse) -> bool {
    match key {
        StepCurveKey::Circle { .. } => first.way is Round && first.same == (start != 0),
        StepCurveKey::Ellipse { .. } => first.way is Round && first.same == (start != 0),
        _ => first.way == Way::From(start) && first.same,
    }
}

/// Whether every curve is first used along it, and then as the first use says.
pub open spec fn in_turn(uses: Seq<StepUse>) -> bool {
    &&& forall|i: int|
        0 <= i < uses.len() && #[trigger] is_first(uses, i) && uses[i].way is From
            ==> uses[i].same
    &&& forall|i: int, j: int|
        #![trigger is_first(uses, i), uses[j]]
        0 <= i < j < uses.len() && is_first(uses, i) && uses[i].curve == uses[j].curve
            ==> follows(uses[i], uses[j])
}

/// Whether the entities are in order: each has its line under its number and
/// refers to numbers up to a limit alone; the uses of edge curves are those that
/// are listed; every edge curve is used, and used in turn.
#[verifier::opaque]
pub open spec fn neat(s: StepState, limit: nat) -> bool {
    &&& sound(s)
    &&& s.counter <= limit
    &&& s.lines.len() == s.counter
    &&& s.out == rendered(s.lines, s.gaps)
    &&& forall|n: nat| #[trigger] s.gaps.contains(n) ==> n <= s.counter
    &&& forall|k: int| 0 <= k < s.lines.len() ==> settled(#[trigger] s.lines[k], limit)
    &&& forall|i: int| 0 <= i < s.uses.len() ==> 1 <= (#[trigger] s.uses[i]).curve <= s.counter
    &&& in_turn(s.uses)
    &&& forall|key: StepCurveKey| #[trigger]
        s.edges.dom().contains(key) ==> exists|i: int|
            0 <= i < s.uses.len() && #[trigger] is_first(s.uses, i) && s.uses[i].curve
                == s.edges[key].0 && begun(key, s.edges[key].1, s.uses[i])
    &&& forall|k: int|
        0 <= k < s.lines.len() && is_edge_curve(#[trigger] s.lines[k]) ==> exists|i: int|
            0 <= i < s.uses.len() && (#[trigger] s.uses[i]).curve == k + 1
    &&& forall|curve: nat, same: bool| #[trigger]
        times_said(s.lines, use_body(curve, same)) == times_run(s.uses, curve, same)
}

/// Neither a use nor an edge curve is anything else.
pub proof fn lemma_not_unused(from: nat, to: nat, curve: nat, same: bool)
    ensures
        !unused(use_body(curve, same)),
        !unused(edge_curve_body(from, to, curve, same)),
        use_body(curve, same) != edge_curve_body(from, to, curve, same),
        use_body(curve, same).glyphs.len() > 0,
        use_body(curve, same).glyphs[0] == Glyph::Char('O' as u32),
        edge_curve_body(from, to, curve, same).glyphs.len() > 0,
        edge_curve_body(from, to, curve, same).glyphs[0] == Glyph::Char('E' as u32),
{
    let a = "ORIENTED_EDGE('',*,*,#"@;
    let b = "EDGE_CURVE('',#"@;
    reveal_strlit("ORIENTED_EDGE('',*,*,#");
    reveal_strlit("EDGE_CURVE('',#");
    lemma_characters(a);
    lemma_characters(b);
    assert(use_body(curve, same).glyphs =~= characters(a) + (characters(decimal(curve))
        + characters(","@) + characters(flag(same)) + characters(")"@)));
    assert(edge_curve_body(from, to, curve, same).glyphs =~= characters(b) + (characters(
        decimal(from),
    ) + characters(",#"@) + characters(decimal(to)) + characters(",#"@) + characters(
        decimal(curve),
    ) + characters(","@) + characters(flag(same)) + characters(")"@)));
}

proof fn lemma_comma(n: nat, i: int)
    requires
        0 <= i < decimal(n).len(),
    ensures
        decimal(n)[i] != ',',
    decreases n,
{
    if n >= 10 && i < decimal(n).len() - 1 {
        lemma_comma(n / 10, i);
    }
}

proof fn lemma_code(c: char, d: char)
    requires
        c as u32 == d as u32,
    ensures
        c == d,
{
}

/// Different uses are written differently.
pub proof fn lemma_use_unambiguous(c1: nat, same1: bool, c2: nat, same2: bool)
    requires
        use_body(c1, same1) == use_body(c2, same2),
    ensures
        c1 == c2,
        same1 == same2,
{
    let a = "ORIENTED_EDGE('',*,*,#"@;
    let d1 = decimal(c1);
    let d2 = decimal(c2);
    let g1 = use_body(c1, same1).glyphs;
    let g2 = use_body(c2, same2).glyphs;
    let n = a.len() as int;
    reveal_strlit(",");
    reveal_strlit(".T.");
    reveal_strlit(".F.");
    lemma_characters(a);
    lemma_characters(d1);
    lemma_characters(d2);
    lemma_characters(","@);
    lemma_characters(flag(same1));
    lemma_characters(flag(same2));
    let r1 = characters(","@) + characters(flag(same1)) + characters(")"@);
    let r2 = characters(","@) + characters(flag(same2)) + characters(")"@);
    assert(g1 =~= characters(a) + characters(d1) + r1);
    assert(g2 =~= characters(a) + characters(d2) + r2);
    assert forall|i: int| 0 <= i < d1.len() implies #[trigger] g1[n + i] == Glyph::Char(
        d1[i] as u32,
    ) by {
        assert(g1[n + i] == characters(d1)[i]);
    }
    assert forall|i: int| 0 <= i < d2.len() implies #[trigger] g2[n + i] == Glyph::Char(
        d2[i] as u32,
    ) by {
        assert(g2[n + i] == characters(d2)[i]);
    }
    assert(g1[n + d1.len()] == r1[0] && r1[0] == characters(","@)[0]);
    assert(g2[n + d2.len()] == r2[0] && r2[0] == characters(","@)[0]);
    if d1.len() < d2.len() {
        lemma_comma(c2, d1.len() as int);
        lemma_code(d2[d1.len() as int], ',');
    } else if d2.len() < d1.len() {
        lemma_comma(c1, d2.len() as int);
        lemma_code(d1[d2.len() as int], ',');
    }
    assert(d1 =~= d2) by {
        assert forall|i: int| 0 <= i < d1.len() implies d1[i] == d2[i] by {
            assert(g1[n + i] == Glyph::Char(d1[i] as u32));
            assert(g2[n + i] == Glyph::Char(d2[i] as u32));
            lemma_code(d1[i], d2[i]);
        }
    }
    law_decimal_is_unambiguous(c1, c2);
    assert(g1[n + d1.len() + 2] == r1[2] && r1[2] == characters(flag(same1))[1]);
    assert(g2[n + d1.len() + 2] == r2[2] && r2[2] == characters(flag(same2))[1]);
    assert(flag(true)[1] == 'T' && flag(false)[1] == 'F');
    lemma_code(flag(same1)[1], flag(same2)[1]);
}

/// What is in order is sound.
pub proof fn lemma_neat_sound(s: StepState, limit: nat)
    requires
        neat(s, limit),
    ensures
        sound(s),
        s.counter <= limit,
{
    reveal(neat);
}

/// Nothing is in order.
pub proof fn lemma_neat_start(limit: nat)
    ensures
        neat(StepState::start(), limit),
{
    reveal(neat);
}

/// What is in order stays so when nothing is to be shared any more.
pub proof fn lemma_neat_cleared(s: StepState, limit: nat)
    requires
        neat(s, limit),
    ensures
        neat(s.cleared(), limit),
{
    reveal(neat);
}

/// What is in order stays so with an empty line after it.
pub proof fn lemma_neat_blank(s: StepState, limit: nat)
    requires
        neat(s, limit),
        s.counter > 0,
        !s.gaps.contains(s.counter),
    ensures
        neat(s.blank(), limit),
{
    reveal(neat);
    let t = s.blank();
    let n = s.counter;
    lemma_gap_at_end(s.lines.drop_last(), s.gaps, n);
    let line = entity_line(n, s.lines.last());
    assert(line + seq![] =~= line);
    assert(t.out =~= rendered(t.lines, t.gaps));
}

/// What is in order has no empty line ahead.
pub proof fn lemma_no_gap_ahead(s: StepState, limit: nat, n: nat)
    requires
        neat(s, limit),
        n > s.counter,
    ensures
        !s.gaps.contains(n),
{
    reveal(neat);
}

/// What is in order stays so when a vertex is remembered.
pub proof fn lemma_neat_vertex(s: StepState, limit: nat, p: GridKey, id: usize)
    requires
        neat(s, limit),
        1 <= id <= s.counter,
    ensures
        neat(StepState { vertices: s.vertices.insert(p, id), ..s }, limit),
{
    reveal(neat);
}

/// What is in order stays so with one more entity that is no use and no edge
/// curve.
pub proof fn lemma_neat_put(s: StepState, limit: nat, body: Script)
    requires
        neat(s, limit),
        s.counter + 1 <= limit,
        settled(body, limit),
        unused(body),
    ensures
        neat(s.put(body), limit),
{
    reveal(neat);
    let t = s.put(body);
    assert(t.lines.drop_last() =~= s.lines);
    assert(entity_line(t.counter, body) + seq![] =~= entity_line(t.counter, body));
    assert(!s.gaps.contains(t.counter));
    assert forall|curve: nat, same: bool| #[trigger]
        times_said(t.lines, use_body(curve, same)) == times_run(t.uses, curve, same) by {
        lemma_not_unused(0, 0, curve, same);
        assert(times_said(s.lines, use_body(curve, same)) == times_run(s.uses, curve, same));
    }
    assert forall|k: int| 0 <= k < t.lines.len() && is_edge_curve(#[trigger] t.lines[k]) implies
        exists|i: int| 0 <= i < t.uses.len() && (#[trigger] t.uses[i]).curve == k + 1 by {
        if k == s.lines.len() {
            let (from, to, curve, same) = choose|from: nat, to: nat, curve: nat, same: bool|
                body == #[trigger] edge_curve_body(from, to, curve, same);
            lemma_not_unused(from, to, curve, same);
        } else {
            assert(t.lines[k] == s.lines[k]);
            let i = choose|i: int| 0 <= i < s.uses.len() && (#[trigger] s.uses[i]).curve == k + 1;
            assert(t.uses[i].curve == k + 1);
        }
    }
}

/// A list of uses with one more.
proof fn lemma_one_more_use(uses: Seq<StepUse>, more: StepUse)
    ensures
        forall|i: int|
            0 <= i < uses.len() ==> is_first(uses, i) == #[trigger] is_first(uses.push(more), i),
        forall|curve: nat, same: bool| #[trigger]
            times_run(uses.push(more), curve, same) == times_run(uses, curve, same) + (if more.curve
                == curve && more.same == same {
                1nat
            } else {
                0
            }),
{
    let all = uses.push(more);
    assert(all.drop_last() =~= uses);
    assert forall|i: int| 0 <= i < uses.len() implies is_first(uses, i) == #[trigger] is_first(
        all,
        i,
    ) by {
        assert(all[i] == uses[i]);
        if is_first(uses, i) {
            assert forall|j: int| 0 <= j < i implies (#[trigger] all[j]).curve != all[i].curve by {
                assert(all[j] == uses[j]);
            }
        }
        if is_first(all, i) {
            assert forall|j: int| 0 <= j < i implies (#[trigger] uses[j]).curve
                != uses[i].curve by {
                assert(all[j] == uses[j]);
            }
        }
    }
}

/// How often things are said, with a use more.
proof fn lemma_said_use(lines: Seq<Script>, curve: nat, same: bool)
    ensures
        forall|c: nat, w: bool| #[trigger]
            times_said(lines.push(use_body(curve, same)), use_body(c, w)) == times_said(
                lines,
                use_body(c, w),
            ) + (if c == curve && w == same {
                1nat
            } else {
                0
            }),
{
    let all = lines.push(use_body(curve, same));
    assert(all.drop_last() =~= lines);
    assert forall|c: nat, w: bool| #[trigger]
        times_said(all, use_body(c, w)) == times_said(lines, use_body(c, w)) + (if c == curve && w
            == same {
            1nat
        } else {
            0
        }) by {
        if use_body(c, w) == use_body(curve, same) {
            lemma_use_unambiguous(c, w, curve, same);
        }
    }
}

/// What is in order stays so when a remembered edge curve is used again.
pub proof fn lemma_neat_again(s: StepState, limit: nat, key: StepCurveKey, way: Way, same: bool)
    requires
        neat(s, limit),
        s.counter + 1 <= limit,
        s.edges.dom().contains(key),
        settled(use_body(s.edges[key].0 as nat, same), limit),
        match key {
            StepCurveKey::Circle { .. } => way is Round && same == (s.edges[key].1 == 0),
            StepCurveKey::Ellipse { .. } => way is Round && same == (s.edges[key].1 == 0),
            _ => way is From && same == (way == Way::From(s.edges[key].1)),
        },
    ensures
        neat(s.oriented(s.edges[key].0, way, same), limit),
{
    reveal(neat);
    let curve = s.edges[key].0;
    let more = StepUse { curve, way, same };
    let t = s.oriented(curve, way, same);
    let n = s.uses.len() as int;
    lemma_one_more_use(s.uses, more);
    lemma_said_use(s.lines, curve as nat, same);
    assert(t.lines.drop_last() =~= s.lines);
    assert(entity_line(t.counter, use_body(curve as nat, same)) + seq![] =~= entity_line(
        t.counter,
        use_body(curve as nat, same),
    ));
    assert(!s.gaps.contains(t.counter));
    let f = choose|i: int|
        0 <= i < s.uses.len() && #[trigger] is_first(s.uses, i) && s.uses[i].curve
            == s.edges[key].0 && begun(key, s.edges[key].1, s.uses[i]);
    assert(!is_first(t.uses, n)) by {
        assert(t.uses[f] == s.uses[f]);
        assert(t.uses[n] == more);
    }
    assert forall|i: int, j: int|
        #![trigger is_first(t.uses, i), t.uses[j]]
        0 <= i < j < t.uses.len() && is_first(t.uses, i) && t.uses[i].curve
            == t.uses[j].curve implies follows(t.uses[i], t.uses[j]) by {
        assert(t.uses[i] == s.uses[i]);
        if j < n {
            assert(t.uses[j] == s.uses[j]);
            assert(is_first(s.uses, i));
        } else {
            if i < f {
                assert(s.uses[i].curve != s.uses[f].curve);
            }
            if f < i {
                assert(t.uses[f] == s.uses[f]);
                assert(t.uses[f].curve != t.uses[i].curve);
            }
            assert(i == f);
        }
    }
    assert forall|i: int|
        0 <= i < t.uses.len() && #[trigger] is_first(t.uses, i)
            && t.uses[i].way is From implies t.uses[i].same by {
        assert(i < n);
        assert(t.uses[i] == s.uses[i]);
        assert(is_first(s.uses, i));
    }
    assert forall|k: StepCurveKey| #[trigger] t.edges.dom().contains(k) implies exists|i: int|
        0 <= i < t.uses.len() && #[trigger] is_first(t.uses, i) && t.uses[i].curve
            == t.edges[k].0 && begun(k, t.edges[k].1, t.uses[i]) by {
        let i = choose|i: int|
            0 <= i < s.uses.len() && #[trigger] is_first(s.uses, i) && s.uses[i].curve
                == s.edges[k].0 && begun(k, s.edges[k].1, s.uses[i]);
        assert(t.uses[i] == s.uses[i]);
        assert(is_first(t.uses, i));
    }
    assert forall|k: int| 0 <= k < t.lines.len() && is_edge_curve(#[trigger] t.lines[k]) implies
        exists|i: int| 0 <= i < t.uses.len() && (#[trigger] t.uses[i]).curve == k + 1 by {
        if k == s.lines.len() {
            let (from, to, c, w) = choose|from: nat, to: nat, c: nat, w: bool|
                t.lines[k] == #[trigger] edge_curve_body(from, to, c, w);
            lemma_not_unused(from, to, c, w);
            lemma_not_unused(from, to, curve as nat, same);
        } else {
            assert(t.lines[k] == s.lines[k]);
            let i = choose|i: int| 0 <= i < s.uses.len() && (#[trigger] s.uses[i]).curve == k + 1;
            assert(t.uses[i] == s.uses[i]);
        }
    }
    assert forall|c: nat, w: bool| #[trigger]
        times_said(t.lines, use_body(c, w)) == times_run(t.uses, c, w) by {
        assert(times_said(s.lines, use_body(c, w)) == times_run(s.uses, c, w));
    }
}

/// What is in order stays so when an edge curve is made, remembered and used.
pub proof fn lemma_neat_new(
    s: StepState,
    limit: nat,
    from: usize,
    to: usize,
    curve: nat,
    along: bool,
    key: StepCurveKey,
    start: usize,
    way: Way,
    same: bool,
)
    requires
        neat(s, limit),
        s.counter + 2 <= limit <= usize::MAX,
        !s.edges.dom().contains(key),
        key matches StepCurveKey::Line { v1, v2 } ==> start == v1 || start == v2,
        settled(edge_curve_body(from as nat, to as nat, curve, along), limit),
        settled(use_body(s.counter + 1, same), limit),
        begun(key, start, StepUse { curve: (s.counter + 1) as usize, way, same }),
    ensures
        neat(
            s.edge_curve(from, to, curve, along).remember(key, start).oriented(
                (s.counter + 1) as usize,
                way,
                same,
            ),
            limit,
        ),
{
    reveal(neat);
    let c = (s.counter + 1) as usize;
    let body = edge_curve_body(from as nat, to as nat, curve, along);
    let more = StepUse { curve: c, way, same };
    let m = s.edge_curve(from, to, curve, along).remember(key, start);
    let t = m.oriented(c, way, same);
    let n = s.uses.len() as int;
    lemma_one_more_use(s.uses, more);
    lemma_said_use(m.lines, c as nat, same);
    assert(m.lines.drop_last() =~= s.lines);
    assert(t.lines.drop_last() =~= m.lines);
    assert(t.uses[n] == more);
    assert(is_first(t.uses, n)) by {
        assert forall|j: int| 0 <= j < n implies (#[trigger] t.uses[j]).curve
            != t.uses[n].curve by {
            assert(t.uses[j] == s.uses[j]);
        }
    }
    assert forall|i: int, j: int|
        #![trigger is_first(t.uses, i), t.uses[j]]
        0 <= i < j < t.uses.len() && is_first(t.uses, i) && t.uses[i].curve
            == t.uses[j].curve implies follows(t.uses[i], t.uses[j]) by {
        assert(t.uses[i] == s.uses[i]);
        assert(j < n);
        assert(t.uses[j] == s.uses[j]);
        assert(is_first(s.uses, i));
    }
    assert forall|i: int|
        0 <= i < t.uses.len() && #[trigger] is_first(t.uses, i)
            && t.uses[i].way is From implies t.uses[i].same by {
        if i < n {
            assert(t.uses[i] == s.uses[i]);
            assert(is_first(s.uses, i));
        }
    }
    assert forall|k: StepCurveKey| #[trigger] t.edges.dom().contains(k) implies exists|i: int|
        0 <= i < t.uses.len() && #[trigger] is_first(t.uses, i) && t.uses[i].curve
            == t.edges[k].0 && begun(k, t.edges[k].1, t.uses[i]) by {
        if k != key {
            assert(s.edges.dom().contains(k));
            let i = choose|i: int|
                0 <= i < s.uses.len() && #[trigger] is_first(s.uses, i) && s.uses[i].curve
                    == s.edges[k].0 && begun(k, s.edges[k].1, s.uses[i]);
            assert(t.uses[i] == s.uses[i]);
            assert(is_first(t.uses, i));
        }
    }
    assert forall|k: int| 0 <= k < t.lines.len() && is_edge_curve(#[trigger] t.lines[k]) implies
        exists|i: int| 0 <= i < t.uses.len() && (#[trigger] t.uses[i]).curve == k + 1 by {
        if k == m.lines.len() {
            let (f, g, d, w) = choose|f: nat, g: nat, d: nat, w: bool|
                t.lines[k] == #[trigger] edge_curve_body(f, g, d, w);
            lemma_not_unused(f, g, d, w);
            lemma_not_unused(f, g, c as nat, same);
        } else if k == s.lines.len() {
            assert(t.uses[n].curve == k + 1);
        } else {
            assert(t.lines[k] == s.lines[k]);
            let i = choose|i: int| 0 <= i < s.uses.len() && (#[trigger] s.uses[i]).curve == k + 1;
            assert(t.uses[i] == s.uses[i]);
        }
    }
    assert forall|d: nat, w: bool| #[trigger]
        times_said(t.lines, use_body(d, w)) == times_run(t.uses, d, w) by {
        lemma_not_unused(from as nat, to as nat, d, w);
        lemma_not_unused(from as nat, to as nat, curve, along);
        assert(times_said(s.lines, use_body(d, w)) == times_run(s.uses, d, w));
        assert(times_said(m.lines, use_body(d, w)) == times_said(s.lines, use_body(d, w)));
    }
    assert(sound(t));
    assert(t.counter == s.counter + 2);
    assert(entity_line(c as nat, body) + seq![] =~= entity_line(c as nat, body));
    assert(entity_line(t.counter, use_body(c as nat, same)) + seq![] =~= entity_line(
        t.counter,
        use_body(c as nat, same),
    ));
    assert(m.out == rendered(m.lines, m.gaps));
    assert(t.out == rendered(t.lines, t.gaps));
    assert forall|k: int| 0 <= k < t.lines.len() implies settled(#[trigger] t.lines[k], limit) by {
        if k < s.lines.len() {
            assert(t.lines[k] == s.lines[k]);
        }
    }
    assert forall|i: int| 0 <= i < t.uses.len() implies 1 <= (#[trigger] t.uses[i]).curve
        <= t.counter by {
        if i < n {
            assert(t.uses[i] == s.uses[i]);
        }
    }
    assert(in_turn(t.uses));
}

} // verus!
