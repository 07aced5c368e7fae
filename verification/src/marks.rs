//! References in a text: a `#` and the digits of a number.

use vstd::prelude::*;

use crate::scalar::Real;
use crate::script::{Glyph, Script, characters, decimal, digit};

verus! {

/// The mark that a reference begins with.
pub open spec fn mark() -> Glyph {
    Glyph::Char('#' as u32)
}

/// The end of a line.
pub open spec fn newline() -> Glyph {
    Glyph::Char('\n' as u32)
}

/// Whether a glyph is a digit.
pub open spec fn is_digit(g: Glyph) -> bool {
    match g {
        Glyph::Char(c) => '0' as u32 <= c <= '9' as u32,
        Glyph::Number(_) => false,
    }
}

/// Whether a text has a whole number at a place, and something else than a
/// digit after it.
pub open spec fn reads(text: Seq<Glyph>, at: int, n: nat) -> bool {
    let digits = characters(decimal(n));
    &&& 0 <= at
    &&& at + digits.len() < text.len()
    &&& text.subrange(at, at + digits.len()) == digits
    &&& !is_digit(text[at + digits.len()])
}

/// Whether a text refers to one of the numbers from one to a limit at a place.
pub open spec fn refers(text: Seq<Glyph>, at: int, limit: nat) -> bool {
    exists|n: nat| 1 <= n <= limit && #[trigger] reads(text, at + 1, n)
}

/// Whether every mark in a text begins a reference to one of the numbers from
/// one to a limit, and none stands at the start of a line.
pub open spec fn tidy(text: Seq<Glyph>, limit: nat) -> bool {
    forall|i: int|
        0 <= i < text.len() && #[trigger] text[i] == mark() ==> i > 0 && text[i - 1] != newline()
            && refers(text, i, limit)
}

/// A text is tidy.
#[verifier::opaque]
pub open spec fn settled(s: Script, limit: nat) -> bool {
    tidy(s.glyphs, limit)
}

/// A text is tidy but for a mark at its end.
#[verifier::opaque]
pub open spec fn hanging(s: Script, limit: nat) -> bool {
    &&& s.glyphs.len() > 1
    &&& s.glyphs.last() == mark()
    &&& s.glyphs[s.glyphs.len() - 2] != newline()
    &&& tidy(s.glyphs.drop_last(), limit)
}

/// A text is tidy but for a reference at its end that may go on.
#[verifier::opaque]
pub open spec fn counting(s: Script, limit: nat) -> bool {
    exists|head: Script, n: nat| #[trigger]
        hanging(head, limit) && 1 <= n <= limit && s.glyphs == head.glyphs + #[trigger] characters(
            decimal(n),
        )
}

/// Characters without a mark.
#[verifier::opaque]
pub open spec fn plain(x: Seq<char>) -> bool {
    forall|i: int| 0 <= i < x.len() ==> #[trigger] x[i] != '#'
}

/// Characters with a mark at their end alone, not at the start of a line.
#[verifier::opaque]
pub open spec fn hook(x: Seq<char>) -> bool {
    &&& x.len() > 1
    &&& x.last() == '#'
    &&& x[x.len() - 2] != '\n'
    &&& forall|i: int| 0 <= i < x.len() - 1 ==> #[trigger] x[i] != '#'
}

/// Characters that do not begin with a digit.
#[verifier::opaque]
pub open spec fn opens(x: Seq<char>) -> bool {
    x.len() > 0 && !('0' <= x[0] <= '9')
}

/// Characters that none of `ORIENTED_EDGE`, `EDGE_CURVE`, `PRODUCT` and
/// `SHAPE_DEFINITION_REPRESENTATION` begins with.
#[verifier::opaque]
pub open spec fn lead(x: Seq<char>) -> bool {
    &&& x.len() > 0
    &&& x[0] != 'O'
    &&& x[0] == 'E' ==> x.len() > 5 && x[5] != 'C'
    &&& x[0] == 'P' ==> x.len() > 1 && (x[1] == 'R' ==> x.len() > 7 && x[7] != '(')
    &&& x[0] == 'S' ==> x.len() > 6 && x[6] != 'D'
}

/// A text that neither `ORIENTED_EDGE` nor `EDGE_CURVE` begins.
pub open spec fn unused(s: Script) -> bool {
    &&& s.glyphs.len() > 0
    &&& s.glyphs[0] != Glyph::Char('O' as u32)
    &&& s.glyphs[0] == Glyph::Char('E' as u32) ==> s.glyphs.len() > 5 && s.glyphs[5]
        != Glyph::Char('C' as u32)
}

/// A text that none of `ORIENTED_EDGE`, `EDGE_CURVE`, `PRODUCT` and
/// `SHAPE_DEFINITION_REPRESENTATION` begins.
#[verifier::opaque]
pub open spec fn aside(s: Script) -> bool {
    &&& unused(s)
    &&& s.glyphs[0] == Glyph::Char('P' as u32) ==> s.glyphs.len() > 1 && (s.glyphs[1]
        == Glyph::Char('R' as u32) ==> s.glyphs.len() > 7 && s.glyphs[7] != Glyph::Char(
        '(' as u32,
    ))
    &&& s.glyphs[0] == Glyph::Char('S' as u32) ==> s.glyphs.len() > 6 && s.glyphs[6]
        != Glyph::Char('D' as u32)
}

/// Each character is a glyph of its own.
pub proof fn lemma_characters(x: Seq<char>)
    ensures
        characters(x).len() == x.len(),
        forall|i: int|
            0 <= i < x.len() ==> #[trigger] characters(x)[i] == Glyph::Char(x[i] as u32),
    decreases x.len(),
{
    if x.len() > 0 {
        lemma_characters(x.drop_last());
    }
}

/// Different characters have different code points, in the same order.
proof fn lemma_code(c: char)
    ensures
        c == '#' <==> c as u32 == '#' as u32,
        c == '\n' <==> c as u32 == '\n' as u32,
        c == 'O' <==> c as u32 == 'O' as u32,
        c == 'E' <==> c as u32 == 'E' as u32,
        c == 'C' <==> c as u32 == 'C' as u32,
        c == 'P' <==> c as u32 == 'P' as u32,
        c == 'R' <==> c as u32 == 'R' as u32,
        c == '(' <==> c as u32 == '(' as u32,
        c == 'S' <==> c as u32 == 'S' as u32,
        c == 'D' <==> c as u32 == 'D' as u32,
        '0' <= c <= '9' <==> '0' as u32 <= c as u32 <= '9' as u32,
{
}

/// A whole number is written with digits.
pub proof fn lemma_digits(n: nat)
    ensures
        decimal(n).len() > 0,
        forall|i: int| 0 <= i < decimal(n).len() ==> '0' <= #[trigger] decimal(n)[i] <= '9',
    decreases n,
{
    if n >= 10 {
        lemma_digits(n / 10);
    }
}

proof fn lemma_reads_on(text: Seq<Glyph>, more: Seq<Glyph>, at: int, n: nat)
    requires
        reads(text, at, n),
    ensures
        reads(text + more, at, n),
{
    let digits = characters(decimal(n));
    assert((text + more).subrange(at, at + digits.len()) =~= text.subrange(
        at,
        at + digits.len(),
    ));
}

proof fn lemma_tidy_plain(text: Seq<Glyph>, more: Seq<Glyph>, limit: nat)
    requires
        tidy(text, limit),
        forall|i: int| 0 <= i < more.len() ==> #[trigger] more[i] != mark(),
    ensures
        tidy(text + more, limit),
{
    let both = text + more;
    assert forall|i: int| 0 <= i < both.len() && #[trigger] both[i] == mark() implies i > 0
        && both[i - 1] != newline() && refers(both, i, limit) by {
        if i < text.len() {
            assert(text[i] == mark());
            let n = choose|n: nat| 1 <= n <= limit && #[trigger] reads(text, i + 1, n);
            lemma_reads_on(text, more, i + 1, n);
        } else {
            assert(more[i - text.len()] == mark());
        }
    }
}

/// A reference that goes on with something else than a digit.
proof fn lemma_tidy_reference(text: Seq<Glyph>, n: nat, more: Seq<Glyph>, limit: nat)
    requires
        text.len() > 1,
        text.last() == mark(),
        text[text.len() - 2] != newline(),
        tidy(text.drop_last(), limit),
        1 <= n <= limit,
        more.len() > 0,
        !is_digit(more[0]),
        forall|i: int| 0 <= i < more.len() ==> #[trigger] more[i] != mark(),
    ensures
        tidy(text + characters(decimal(n)) + more, limit),
{
    let digits = characters(decimal(n));
    let both = text + digits + more;
    let head = text.drop_last();
    lemma_characters(decimal(n));
    lemma_digits(n);
    let rest = seq![mark()] + digits + more;
    assert(both =~= head + rest);
    assert forall|i: int| 0 <= i < both.len() && #[trigger] both[i] == mark() implies i > 0
        && both[i - 1] != newline() && refers(both, i, limit) by {
        if i < head.len() {
            assert(head[i] == mark());
            let m = choose|m: nat| 1 <= m <= limit && #[trigger] reads(head, i + 1, m);
            lemma_reads_on(head, rest, i + 1, m);
        } else if i == head.len() {
            assert(both.subrange(i + 1, i + 1 + digits.len()) =~= digits);
            assert(both[i + 1 + digits.len()] == more[0]);
            assert(reads(both, i + 1, n));
        } else if i < text.len() + digits.len() {
            assert(both[i] == digits[i - text.len()]);
            assert('0' <= decimal(n)[i - text.len()] <= '9');
        } else {
            assert(more[i - text.len() - digits.len()] == mark());
        }
    }
}

proof fn lemma_text_settled(s: Script, x: Seq<char>, limit: nat)
    requires
        plain(x),
        settled(s, limit) || counting(s, limit) && opens(x),
    ensures
        settled(s.text(x), limit),
{
    reveal(settled);
    reveal(plain);
    lemma_characters(x);
    assert forall|i: int| 0 <= i < x.len() implies #[trigger] characters(x)[i] != mark() by {
        lemma_code(x[i]);
    }
    if settled(s, limit) {
        lemma_tidy_plain(s.glyphs, characters(x), limit);
    } else {
        reveal(counting);
        reveal(hanging);
        reveal(opens);
        let (head, n) = choose|head: Script, n: nat| #[trigger]
            hanging(head, limit) && 1 <= n <= limit && s.glyphs == head.glyphs
                + #[trigger] characters(decimal(n));
        lemma_code(x[0]);
        assert(!is_digit(characters(x)[0]));
        lemma_tidy_reference(head.glyphs, n, characters(x), limit);
    }
}

proof fn lemma_text_hanging(s: Script, x: Seq<char>, limit: nat)
    requires
        hook(x),
        settled(s, limit) || counting(s, limit) && opens(x),
    ensures
        hanging(s.text(x), limit),
{
    reveal(hook);
    reveal(hanging);
    let y = x.drop_last();
    assert(plain(y)) by {
        reveal(plain);
    }
    assert(opens(x) ==> opens(y)) by {
        reveal(opens);
    }
    lemma_text_settled(s, y, limit);
    reveal(settled);
    lemma_characters(x);
    let t = s.text(x).glyphs;
    assert(t.drop_last() =~= s.text(y).glyphs);
    lemma_code(x[x.len() - 1]);
    lemma_code(x[x.len() - 2]);
    assert(t.last() == characters(x)[x.len() - 1]);
    assert(t[t.len() - 2] == characters(x)[x.len() - 2]);
}

/// A mark after a text that does not end a line.
proof fn lemma_mark_hanging(x: Seq<char>, limit: nat)
    requires
        plain(x),
        x.len() > 0,
        x.last() != '\n',
    ensures
        hanging(Script::empty().text(x).text("#"@), limit),
{
    let y = x.push('#');
    let s = Script::empty().text(x);
    reveal(settled);
    assert(settled(Script::empty(), limit));
    assert(hook(y)) by {
        reveal(plain);
        reveal(hook);
    }
    lemma_text_hanging(Script::empty(), y, limit);
    lemma_characters(x);
    lemma_characters(y);
    reveal_strlit("#");
    lemma_characters("#"@);
    assert(y.drop_last() =~= x);
    assert(s.text("#"@).glyphs =~= Script::empty().text(y).glyphs);
}

proof fn lemma_whole_counting(s: Script, n: nat, limit: nat)
    requires
        hanging(s, limit),
        1 <= n <= limit,
    ensures
        counting(s.whole(n), limit),
{
    reveal(counting);
    assert(s.whole(n).glyphs == s.glyphs + characters(decimal(n)));
}

proof fn lemma_whole_settled(s: Script, n: nat, limit: nat)
    requires
        settled(s, limit),
    ensures
        settled(s.whole(n), limit),
{
    lemma_digits(n);
    assert(plain(decimal(n))) by {
        reveal(plain);
    }
    lemma_text_settled(s, decimal(n), limit);
}

proof fn lemma_number_settled(s: Script, r: Real, limit: nat)
    requires
        settled(s, limit),
    ensures
        settled(s.number(r), limit),
{
    reveal(settled);
    lemma_tidy_plain(s.glyphs, seq![Glyph::Number(r)], limit);
    assert(s.number(r).glyphs =~= s.glyphs + seq![Glyph::Number(r)]);
}

/// Whether ids are among the first so many.
pub open spec fn among(ids: Seq<usize>, limit: nat) -> bool {
    forall|i: int| 0 <= i < ids.len() ==> 1 <= #[trigger] ids[i] <= limit
}

/// A text and a list of references.
pub proof fn lemma_refs(x: Seq<char>, ids: Seq<usize>, limit: nat)
    requires
        plain(x),
        x.len() > 0,
        x.last() != '\n',
        among(ids, limit),
    ensures
        ids.len() == 0 ==> settled(Script::empty().text(x).refs(ids), limit),
        ids.len() > 0 ==> counting(Script::empty().text(x).refs(ids), limit),
    decreases ids.len(),
{
    let s = Script::empty().text(x);
    if ids.len() == 1 {
        lemma_mark_hanging(x, limit);
        lemma_whole_counting(s.text("#"@), ids[0] as nat, limit);
    } else if ids.len() > 1 {
        assert forall|i: int| 0 <= i < ids.len() - 1 implies 1 <= #[trigger] ids.drop_last()[i]
            <= limit by {
            assert(ids.drop_last()[i] == ids[i]);
        }
        lemma_refs(x, ids.drop_last(), limit);
        assert(hook(",#"@) && opens(",#"@)) by {
            reveal(hook);
            reveal(opens);
            reveal_strlit(",#");
        }
        let rest = s.refs(ids.drop_last());
        lemma_text_hanging(rest, ",#"@, limit);
        lemma_whole_counting(rest.text(",#"@), ids.last() as nat, limit);
    } else {
        reveal(settled);
        assert(settled(Script::empty(), limit));
        lemma_text_settled(Script::empty(), x, limit);
    }
}

/// How references come about: a mark at the end of characters, then a number,
/// then characters that do not begin with a digit.
pub proof fn law_references(limit: nat)
    ensures
        settled(Script::empty(), limit),
        forall|s: Script, x: Seq<char>|
            plain(x) && (settled(s, limit) || counting(s, limit) && opens(x))
                ==> #[trigger] settled(s.text(x), limit),
        forall|s: Script, x: Seq<char>|
            hook(x) && (settled(s, limit) || counting(s, limit) && opens(x))
                ==> #[trigger] hanging(s.text(x), limit),
        forall|s: Script, n: nat|
            hanging(s, limit) && 1 <= n <= limit ==> #[trigger] counting(s.whole(n), limit),
        forall|s: Script, n: nat| settled(s, limit) ==> #[trigger] settled(s.whole(n), limit),
        forall|s: Script, r: Real| settled(s, limit) ==> #[trigger] settled(s.number(r), limit),
{
    assert(settled(Script::empty(), limit)) by {
        reveal(settled);
    }
    assert forall|s: Script, x: Seq<char>|
        plain(x) && (settled(s, limit) || counting(s, limit) && opens(x)) implies #[trigger] settled(
        s.text(x),
        limit,
    ) by {
        lemma_text_settled(s, x, limit);
    }
    assert forall|s: Script, x: Seq<char>|
        hook(x) && (settled(s, limit) || counting(s, limit) && opens(x)) implies #[trigger] hanging(
        s.text(x),
        limit,
    ) by {
        lemma_text_hanging(s, x, limit);
    }
    assert forall|s: Script, n: nat|
        hanging(s, limit) && 1 <= n <= limit implies #[trigger] counting(s.whole(n), limit) by {
        lemma_whole_counting(s, n, limit);
    }
    assert forall|s: Script, n: nat| settled(s, limit) implies #[trigger] settled(
        s.whole(n),
        limit,
    ) by {
        lemma_whole_settled(s, n, limit);
    }
    assert forall|s: Script, r: Real| settled(s, limit) implies #[trigger] settled(
        s.number(r),
        limit,
    ) by {
        lemma_number_settled(s, r, limit);
    }
}

/// What a text begins with stays when more is added.
pub proof fn lemma_aside()
    ensures
        forall|x: Seq<char>| lead(x) ==> #[trigger] aside(Script::empty().text(x)),
        forall|s: Script, x: Seq<char>| aside(s) ==> #[trigger] aside(s.text(x)),
        forall|s: Script, n: nat| aside(s) ==> #[trigger] aside(s.whole(n)),
        forall|s: Script, r: Real| aside(s) ==> #[trigger] aside(s.number(r)),
{
    reveal(aside);
    assert forall|x: Seq<char>| lead(x) implies #[trigger] aside(Script::empty().text(x)) by {
        reveal(lead);
        lemma_characters(x);
        lemma_code(x[0]);
        assert forall|i: int| 0 <= i < x.len() implies #[trigger] characters(x)[i] == Glyph::Char(
            x[i] as u32,
        ) by {}
        if x.len() > 1 {
            lemma_code(x[1]);
        }
        if x.len() > 5 {
            lemma_code(x[5]);
        }
        if x.len() > 6 {
            lemma_code(x[6]);
        }
        if x.len() > 7 {
            lemma_code(x[7]);
        }
        assert(Script::empty().text(x).glyphs =~= characters(x));
    }
}

/// What a text begins with stays when references are added.
pub proof fn lemma_aside_refs(s: Script, ids: Seq<usize>)
    requires
        aside(s),
    ensures
        aside(s.refs(ids)),
    decreases ids.len(),
{
    lemma_aside();
    if ids.len() > 1 {
        lemma_aside_refs(s, ids.drop_last());
        assert(aside(s.refs(ids.drop_last()).text(",#"@)));
    } else if ids.len() == 1 {
        assert(aside(s.text("#"@)));
    }
}

/// Characters that neither `ORIENTED_EDGE` nor `EDGE_CURVE` begins with stay so
/// when more is added.
pub proof fn lemma_unused()
    ensures
        forall|x: Seq<char>|
            x.len() > 0 && x[0] != 'O' && x[0] != 'E' ==> #[trigger] unused(
                Script::empty().text(x),
            ),
        forall|s: Script, x: Seq<char>| unused(s) ==> #[trigger] unused(s.text(x)),
        forall|s: Script, n: nat| unused(s) ==> #[trigger] unused(s.whole(n)),
{
    assert forall|x: Seq<char>|
        x.len() > 0 && x[0] != 'O' && x[0] != 'E' implies #[trigger] unused(
        Script::empty().text(x),
    ) by {
        lemma_characters(x);
        lemma_code(x[0]);
        assert(Script::empty().text(x).glyphs =~= characters(x));
    }
}

} // verus!
