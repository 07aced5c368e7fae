//! Text with numbers in it.
//!
//! A number stands in the text as itself; whoever writes the text out gives it
//! its digits.

use vstd::prelude::*;
use vstd::string::StrSliceExecFns;

use crate::scalar::Real;

verus! {

/// One place of a text: a character, or a number.
#[derive(Clone, Copy, Debug, PartialEq, Eq, Structural)]
pub enum Glyph {
    /// A character, by its code point.
    Char(u32),
    /// A number, to be written with ten digits after the point.
    Number(Real),
}

/// What a text says.
#[verifier::ext_equal]
pub struct Script {
    pub glyphs: Seq<Glyph>,
}

/// The glyphs of characters.
pub open spec fn characters(text: Seq<char>) -> Seq<Glyph>
    decreases text.len(),
{
    if text.len() == 0 {
        seq![]
    } else {
        characters(text.drop_last()).push(Glyph::Char(text.last() as u32))
    }
}

/// The glyphs of two texts, one after the other.
pub proof fn lemma_characters_add(a: Seq<char>, b: Seq<char>)
    ensures
        characters(a + b) == characters(a) + characters(b),
    decreases b.len(),
{
    if b.len() == 0 {
        assert(a + b =~= a);
        assert(characters(a) + characters(b) =~= characters(a));
    } else {
        lemma_characters_add(a, b.drop_last());
        assert((a + b).drop_last() =~= a + b.drop_last());
        assert((a + b).last() == b.last());
        assert(characters(a + b) =~= characters(a) + characters(b));
    }
}

/// The character of a digit.
pub open spec fn digit(d: int) -> char {
    if d == 0 {
        '0'
    } else if d == 1 {
        '1'
    } else if d == 2 {
        '2'
    } else if d == 3 {
        '3'
    } else if d == 4 {
        '4'
    } else if d == 5 {
        '5'
    } else if d == 6 {
        '6'
    } else if d == 7 {
        '7'
    } else if d == 8 {
        '8'
    } else {
        '9'
    }
}

/// The decimal digits of a whole number.
pub open spec fn decimal(n: nat) -> Seq<char>
    decreases n,
{
    if n < 10 {
        seq![digit(n as int)]
    } else {
        decimal(n / 10).push(digit((n % 10) as int))
    }
}

impl Script {
    /// No text.
    pub open spec fn empty() -> Script {
        Script { glyphs: seq![] }
    }

    /// The text and some characters.
    pub open spec fn text(self, text: Seq<char>) -> Script {
        Script { glyphs: self.glyphs + characters(text) }
    }

    /// The text and a whole number.
    pub open spec fn whole(self, n: nat) -> Script {
        self.text(decimal(n))
    }

    /// The text and a real number.
    pub open spec fn number(self, r: Real) -> Script {
        Script { glyphs: self.glyphs.push(Glyph::Number(r)) }
    }

    /// The text and a list of references, with commas between.
    pub open spec fn refs(self, ids: Seq<usize>) -> Script
        decreases ids.len(),
    {
        if ids.len() == 0 {
            self
        } else if ids.len() == 1 {
            self.text("#"@).whole(ids[0] as nat)
        } else {
            self.refs(ids.drop_last()).text(",#"@).whole(ids.last() as nat)
        }
    }
}

/// A text under construction.
#[derive(Debug)]
pub struct Line {
    /// What there is of it.
    pub glyphs: Vec<Glyph>,
}

/// The character of a digit.
fn digit_char(d: usize) -> (c: char)
    requires
        d < 10,
    ensures
        c == digit(d as int),
{
    if d == 0 {
        '0'
    } else if d == 1 {
        '1'
    } else if d == 2 {
        '2'
    } else if d == 3 {
        '3'
    } else if d == 4 {
        '4'
    } else if d == 5 {
        '5'
    } else if d == 6 {
        '6'
    } else if d == 7 {
        '7'
    } else if d == 8 {
        '8'
    } else {
        '9'
    }
}

impl Line {
    /// What the text says.
    pub open spec fn view(&self) -> Script {
        Script { glyphs: self.glyphs@ }
    }

    /// No text.
    pub fn new() -> (line: Line)
        ensures
            line@ == Script::empty(),
    {
        Line { glyphs: Vec::new() }
    }

    /// Add characters.
    pub fn text(self, text: &str) -> (line: Line)
        ensures
            line@ == self@.text(text@),
    {
        let mut glyphs = self.glyphs;
        let ghost before = glyphs@;
        let n: usize = text.unicode_len();
        let mut i: usize = 0;
        assert(before + characters(text@.take(0)) =~= before);
        while i < n
            invariant
                i <= n,
                n == text@.len(),
                glyphs@ == before + characters(text@.take(i as int)),
            decreases n - i,
        {
            glyphs.push(Glyph::Char(text.get_char(i) as u32));
            assert(text@.take(i + 1).drop_last() =~= text@.take(i as int));
            assert(glyphs@ =~= before + characters(text@.take(i + 1)));
            i = i + 1;
        }
        assert(text@.take(i as int) =~= text@);
        Line { glyphs }
    }

    /// Add a whole number.
    pub fn whole(self, n: usize) -> (line: Line)
        ensures
            line@ == self@.whole(n as nat),
        decreases n,
    {
        if n < 10 {
            let mut glyphs = self.glyphs;
            glyphs.push(Glyph::Char(digit_char(n) as u32));
            assert(characters(decimal(n as nat).drop_last()) =~= seq![]);
            assert(glyphs@ =~= self@.glyphs + characters(decimal(n as nat)));
            Line { glyphs }
        } else {
            let ghost before = self@;
            let head = self.whole(n / 10);
            let mut glyphs = head.glyphs;
            glyphs.push(Glyph::Char(digit_char(n % 10) as u32));
            assert(decimal(n as nat).drop_last() =~= decimal(n as nat / 10));
            assert(glyphs@ =~= before.glyphs + characters(decimal(n as nat)));
            Line { glyphs }
        }
    }

    /// Add a real number.
    pub fn number(self, r: Real) -> (line: Line)
        ensures
            line@ == self@.number(r),
    {
        let mut glyphs = self.glyphs;
        glyphs.push(Glyph::Number(r));
        Line { glyphs }
    }

    /// Add a list of references, with commas between.
    pub fn refs(self, ids: &Vec<usize>) -> (line: Line)
        ensures
            line@ == self@.refs(ids@),
    {
        let ghost before = self@;
        let mut line = self;
        let n: usize = ids.len();
        let mut i: usize = 0;
        while i < n
            invariant
                i <= n,
                n == ids@.len(),
                line@ == before.refs(ids@.take(i as int)),
            decreases n - i,
        {
            assert(ids@.take(i + 1).drop_last() =~= ids@.take(i as int));
            if i == 0 {
                line = line.text("#").whole(ids[i]);
            } else {
                line = line.text(",#").whole(ids[i]);
            }
            i = i + 1;
        }
        assert(ids@.take(i as int) =~= ids@);
        line
    }
}

} // verus!
