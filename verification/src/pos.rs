//! Position bookkeeping: offset, line and column, moved one character at a time.

use vstd::prelude::*;

verus! {

/// A place in the character stream. `offset` counts characters from the start
/// of the stream, `line` counts line breaks passed, `col` counts characters
/// since the last line break.
#[derive(Clone, Copy, Debug, PartialEq, Eq, Structural)]
pub struct Pos {
    pub offset: u64,
    pub line: u64,
    pub col: u64,
}

impl Pos {
    /// Line and column never count more characters than the offset does.
    pub open spec fn wf(self) -> bool {
        self.line + self.col <= self.offset
    }

    /// The start of a stream.
    pub open spec fn origin() -> Pos {
        Pos { offset: 0, line: 0, col: 0 }
    }

    /// The position after moving forward over `c`.
    pub open spec fn advance(self, c: char) -> Pos {
        if c == '\n' {
            Pos { offset: (self.offset + 1) as u64, line: (self.line + 1) as u64, col: 0 }
        } else {
            Pos { offset: (self.offset + 1) as u64, line: self.line, col: (self.col + 1) as u64 }
        }
    }

    /// The position after moving backward over `c`, which is not a line break.
    pub open spec fn retreat(self, c: char) -> Pos {
        Pos { offset: (self.offset - 1) as u64, line: self.line, col: (self.col - 1) as u64 }
    }

    /// The position after moving forward over every character of `cs`, first to last.
    pub open spec fn advance_all(self, cs: Seq<char>) -> Pos
        decreases cs.len(),
    {
        if cs.len() == 0 {
            self
        } else {
            self.advance_all(cs.drop_last()).advance(cs.last())
        }
    }

    /// The position after moving backward over every character of `cs`, last to first.
    pub open spec fn retreat_all(self, cs: Seq<char>) -> Pos
        decreases cs.len(),
    {
        if cs.len() == 0 {
            self
        } else {
            self.retreat(cs.last()).retreat_all(cs.drop_last())
        }
    }

    pub fn new() -> (p: Pos)
        ensures
            p == Pos::origin(),
            p.wf(),
    {
        Pos { offset: 0, line: 0, col: 0 }
    }

    /// Moves forward over `c`.
    pub fn next(&mut self, c: char)
        requires
            old(self).wf(),
            old(self).offset < u64::MAX,
        ensures
            *final(self) == old(self).advance(c),
            final(self).wf(),
    {
        self.offset += 1;
        if c == '\n' {
            self.line += 1;
            self.col = 0;
        } else {
            self.col += 1;
        }
    }

    /// Moves backward over `c`. A line break is never stepped back over, and
    /// there must be a character on the current line to step back over.
    pub fn back(&mut self, c: char)
        requires
            old(self).wf(),
            c != '\n',
            old(self).col > 0,
        ensures
            *final(self) == old(self).retreat(c),
            final(self).wf(),
    {
        self.offset -= 1;
        self.col -= 1;
    }
}

/// Moving forward over a character keeps a position well formed, and adds one
/// to its offset.
pub proof fn lemma_advance(p: Pos, c: char)
    requires
        p.wf(),
        p.offset < u64::MAX,
    ensures
        p.advance(c).wf(),
        p.advance(c).offset == p.offset + 1,
        c != '\n' ==> p.advance(c).col > 0 && p.advance(c).retreat(c) == p,
{
}

/// Moving forward over `cs` adds its length to the offset.
pub proof fn lemma_advance_all(p: Pos, cs: Seq<char>)
    requires
        p.wf(),
        p.offset + cs.len() <= u64::MAX,
    ensures
        p.advance_all(cs).wf(),
        p.advance_all(cs).offset == p.offset + cs.len(),
        cs.len() > 0 && cs.last() != '\n' ==> p.advance_all(cs).col > 0,
    decreases cs.len(),
{
    if cs.len() > 0 {
        lemma_advance_all(p, cs.drop_last());
        lemma_advance(p.advance_all(cs.drop_last()), cs.last());
    }
}

/// Moving forward over characters, none of them a line break, and then
/// backward over the same characters returns to the position started from.
pub proof fn lemma_round_trip(p: Pos, cs: Seq<char>)
    requires
        p.wf(),
        p.offset + cs.len() <= u64::MAX,
        forall|i: int| 0 <= i < cs.len() ==> cs[i] != '\n',
    ensures
        p.advance_all(cs).retreat_all(cs) == p,
    decreases cs.len(),
{
    if cs.len() > 0 {
        let front = cs.drop_last();
        lemma_advance_all(p, front);
        lemma_advance(p.advance_all(front), cs.last());
        lemma_round_trip(p, front);
    }
}

} // verus!
