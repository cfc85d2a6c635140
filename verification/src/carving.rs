//! The carving as a mathematical state machine.
//!
//! A carving walks the cell grid from the centre. Each step visits the
//! current cell, walls it off from explored cells it did not come from,
//! and then either enters an unvisited neighbour or backtracks. Which
//! neighbour is entered is the one open choice; everything else is
//! determined.

use vstd::prelude::*;
use crate::cell::{filled, BoardCell, Position};
use crate::maze::{above, below, gen_size, left_of, right_of, start_cell};

verus! {

/// The mathematical state of a carving in progress.
pub struct Carving {
    /// The requested board size; it fixes the grid side and the visit limit.
    pub board_size: nat,
    /// The cell grid with the walls marked so far.
    pub cells: Seq<Seq<BoardCell>>,
    /// The cells visited so far.
    pub visited: Set<Position>,
    /// The backtracking stack, bottom first.
    pub stack: Seq<Position>,
    /// The current cell.
    pub pos: Position,
    /// Whether the current cell was reached by backtracking.
    pub popped: bool,
}

impl Carving {
    /// Side of the cell grid.
    pub open spec fn side(self) -> nat {
        gen_size(self.board_size)
    }

    /// The number of visited cells at which carving stops regardless of
    /// the stack: the square of the board size.
    pub open spec fn limit(self) -> nat {
        self.board_size * self.board_size
    }

    /// The state before the first step: no walls, nothing visited, the
    /// centre cell current and alone on the stack.
    pub open spec fn initial(board_size: nat) -> Carving {
        let side = gen_size(board_size);
        Carving {
            board_size,
            cells: filled(side, BoardCell { wall_right: false, wall_bottom: false }),
            visited: Set::empty(),
            stack: seq![start_cell(side)],
            pos: start_cell(side),
            popped: false,
        }
    }

    /// Carving goes on while the stack is not empty and fewer cells than
    /// the limit have been visited.
    pub open spec fn active(self) -> bool {
        self.stack.len() > 0 && self.visited.len() < self.limit()
    }

    /// The unvisited neighbours of the current cell inside the grid, in
    /// the order up, left, down, right.
    pub open spec fn candidates(self) -> Seq<Position> {
        let p = self.pos;
        let s0 = Seq::<Position>::empty();
        let s1 = if p.y > 0 && !self.visited.contains(above(p)) {
            s0.push(above(p))
        } else {
            s0
        };
        let s2 = if p.x > 0 && !self.visited.contains(left_of(p)) {
            s1.push(left_of(p))
        } else {
            s1
        };
        let s3 = if p.y + 1 < self.side() && !self.visited.contains(below(p)) {
            s2.push(below(p))
        } else {
            s2
        };
        if p.x + 1 < self.side() && !self.visited.contains(right_of(p)) {
            s3.push(right_of(p))
        } else {
            s3
        }
    }

    /// A neighbour `q` of the current cell gets walled off by the scan:
    /// it was visited before, it is not the cell on top of the stack,
    /// and the current cell was not reached by backtracking.
    pub open spec fn walled_off(self, q: Position) -> bool {
        !self.popped && self.visited.contains(q) && q != self.stack.last()
    }

    /// The scan of the current cell puts a wall between the neighbouring
    /// cells `a` and `b`.
    pub open spec fn marks(self, a: Position, b: Position) -> bool {
        ||| a == self.pos && self.walled_off(b)
        ||| b == self.pos && self.walled_off(a)
    }

    /// The cell grid after the scan of the current cell: walls are only
    /// ever added, and only where `marks` says so.
    pub open spec fn scanned(self) -> Seq<Seq<BoardCell>> {
        let side = self.side();
        Seq::new(
            side,
            |y: int|
                Seq::new(
                    side,
                    |x: int|
                        {
                            let here = Position { x: x as usize, y: y as usize };
                            BoardCell {
                                wall_right: self.cells[y][x].wall_right || (x + 1 < side
                                    && self.marks(here, right_of(here))),
                                wall_bottom: self.cells[y][x].wall_bottom || (y + 1 < side
                                    && self.marks(here, below(here))),
                            }
                        },
                ),
        )
    }

    /// One step of the carving. With candidates to enter, the current
    /// cell goes on the stack and candidate number `pick` becomes
    /// current; with none, the top of the stack is popped and becomes
    /// current.
    pub open spec fn step(self, pick: int) -> Carving {
        if self.candidates().len() > 0 {
            Carving {
                cells: self.scanned(),
                visited: self.visited.insert(self.pos),
                stack: self.stack.push(self.pos),
                pos: self.candidates()[pick],
                popped: false,
                ..self
            }
        } else {
            Carving {
                cells: self.scanned(),
                visited: self.visited.insert(self.pos),
                stack: self.stack.drop_last(),
                pos: self.stack.last(),
                popped: true,
                ..self
            }
        }
    }

    /// `pick` names one of the candidates, if there are any. Without
    /// candidates the step backtracks and every pick is as good.
    pub open spec fn allows(self, pick: int) -> bool {
        self.candidates().len() > 0 ==> 0 <= pick < self.candidates().len()
    }
}

/// The carving reached from the initial state by taking one step for
/// each pick, in order.
pub open spec fn carved(board_size: nat, picks: Seq<int>) -> Carving
    decreases picks.len(),
{
    if picks.len() == 0 {
        Carving::initial(board_size)
    } else {
        carved(board_size, picks.drop_last()).step(picks.last())
    }
}

/// `picks` drives a carving from start to stop: every step is due when
/// it is taken and enters a candidate that exists, and after the last
/// one no step is due.
pub open spec fn is_carving_run(board_size: nat, picks: Seq<int>) -> bool {
    &&& forall|i: int|
        0 <= i < picks.len() ==> (#[trigger] carved(board_size, picks.take(i))).active() && carved(
            board_size,
            picks.take(i),
        ).allows(picks[i])
    &&& !carved(board_size, picks).active()
}

/// Some run of the carving ends with the grid `cells`.
pub open spec fn can_carve(board_size: nat, cells: Seq<Seq<BoardCell>>) -> bool {
    exists|picks: Seq<int>| #[trigger]
        is_carving_run(board_size, picks) && carved(board_size, picks).cells == cells
}

} // verus!
