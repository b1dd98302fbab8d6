//! Moves and the branchable undo/redo history.

use vstd::prelude::*;

verus! {

/// A press request: a grid position and a signed magnitude. A positive `d`
/// applies the press forward `d` times, a negative `d` applies the inverse
/// press `|d|` times, and zero is a no-op that is never recorded.
#[derive(Clone, Copy, Debug, PartialEq, Eq, Structural)]
pub struct Move {
    pub x: usize,
    pub y: usize,
    pub d: isize,
}

impl Move {
    /// The same position with the magnitude negated.
    pub open spec fn spec_inv(self) -> Move {
        Move { x: self.x, y: self.y, d: (-(self.d as int)) as isize }
    }

    /// A forward press of magnitude 1.
    pub fn new(x: usize, y: usize) -> (r: Move)
        ensures
            r == (Move { x, y, d: 1 as isize }),
    {
        Move { x, y, d: 1 }
    }

    /// The inverse move: same position, negated magnitude.
    pub fn inv(&self) -> (r: Move)
        requires
            self.d != isize::MIN,
        ensures
            r == self.spec_inv(),
            r.d == -(self.d as int),
    {
        Move { x: self.x, y: self.y, d: -self.d }
    }

    /// The position of the move.
    pub fn loc(&self) -> (r: (usize, usize))
        ensures
            r == (self.x, self.y),
    {
        (self.x, self.y)
    }
}

/// A branchable undo/redo history: the applied moves, oldest first, and a
/// cursor counting how many trailing entries are currently undone.
#[derive(Clone, Debug)]
pub struct MoveStack {
    pub stack: Vec<Move>,
    pub index: usize,
}

impl MoveStack {
    /// The cursor never passes the number of recorded moves.
    pub open spec fn wf(self) -> bool {
        self.index <= self.stack@.len()
    }

    /// The moves that survive a push: everything before the undone tail.
    pub open spec fn kept(self) -> Seq<Move> {
        self.stack@.take(self.stack@.len() - self.index)
    }

    /// The move the next `undo` will return, meaningful when one is left.
    pub open spec fn peek_undo(self) -> Move {
        self.stack@[self.stack@.len() - self.index - 1]
    }

    /// The move the next `redo` will return, meaningful when one is left.
    pub open spec fn peek_redo(self) -> Move {
        self.stack@[self.stack@.len() - self.index]
    }

    /// An empty history.
    pub fn new() -> (r: MoveStack)
        ensures
            r.wf(),
            r.stack@.len() == 0,
            r.index == 0,
    {
        MoveStack { stack: Vec::new(), index: 0 }
    }

    /// Record a newly applied move. Any undone tail is discarded first: once
    /// a new move is applied, the forfeited redo branch is unreachable.
    pub fn push(&mut self, m: Move)
        requires
            old(self).wf(),
        ensures
            final(self).wf(),
            final(self).stack@ == old(self).kept().push(m),
            final(self).index == 0,
    {
        if self.index != 0 {
            let keep = self.stack.len() - self.index;
            self.stack.truncate(keep);
            self.index = 0;
        }
        proof {
            assert(self.stack@ =~= old(self).kept());
        }
        self.stack.push(m);
    }

    /// Step the cursor past the most recently applied move that is not yet
    /// undone and return it, or nothing when all moves are undone.
    pub fn undo(&mut self) -> (r: Option<Move>)
        requires
            old(self).wf(),
        ensures
            final(self).wf(),
            final(self).stack == old(self).stack,
            match r {
                Some(m) => old(self).index < old(self).stack@.len() && final(self).index == old(
                    self,
                ).index + 1 && m == old(self).peek_undo(),
                None => old(self).index == old(self).stack@.len() && *final(self) == *old(self),
            },
    {
        if self.index < self.stack.len() {
            self.index += 1;
            Some(self.stack[self.stack.len() - self.index])
        } else {
            None
        }
    }

    /// Step the cursor back over the most recently undone move and return
    /// it, or nothing when no move is undone.
    pub fn redo(&mut self) -> (r: Option<Move>)
        requires
            old(self).wf(),
        ensures
            final(self).wf(),
            final(self).stack == old(self).stack,
            match r {
                Some(m) => old(self).index > 0 && final(self).index == old(self).index - 1 && m
                    == old(self).peek_redo(),
                None => old(self).index == 0 && *final(self) == *old(self),
            },
    {
        if self.index > 0 {
            self.index -= 1;
            Some(self.stack[self.stack.len() - self.index - 1])
        } else {
            None
        }
    }
}

} // verus!
