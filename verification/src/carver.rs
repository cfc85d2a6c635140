//! The carver: the carving as it runs.

use vstd::prelude::*;
use crate::carving::Carving;
use crate::cell::{at, in_grid, is_square, rows, square_of, BoardCell, Position};
use crate::soundness::{lemma_initial_inv, lemma_scanned, lemma_step_inv};
use crate::maze::{above, below, left_of, right_of};

verus! {

/// `cell` with one more wall.
spec fn with_wall(cell: BoardCell, bottom: bool) -> BoardCell {
    if bottom {
        BoardCell { wall_right: cell.wall_right, wall_bottom: true }
    } else {
        BoardCell { wall_right: true, wall_bottom: cell.wall_bottom }
    }
}

/// `after` is `before` with, if `hit`, one more wall at `target`.
spec fn one_wall_more(
    before: Seq<Seq<BoardCell>>,
    after: Seq<Seq<BoardCell>>,
    side: nat,
    hit: bool,
    target: Position,
    bottom: bool,
) -> bool {
    &&& is_square(after, side)
    &&& forall|q: Position|
        in_grid(q, side) ==> #[trigger] at(after, q) == if hit && q == target {
            with_wall(at(before, q), bottom)
        } else {
            at(before, q)
        }
}

/// The four looks of a scan, taken one after the other, leave the grid
/// that `scanned` describes.
proof fn lemma_walls_add_up(
    c: Carving,
    up: Seq<Seq<BoardCell>>,
    left: Seq<Seq<BoardCell>>,
    down: Seq<Seq<BoardCell>>,
    right: Seq<Seq<BoardCell>>,
)
    requires
        c.well_shaped(),
        one_wall_more(c.cells, up, c.side(), c.pos.y > 0 && c.walled_off(above(c.pos)), above(c.pos), true),
        one_wall_more(up, left, c.side(), c.pos.x > 0 && c.walled_off(left_of(c.pos)), left_of(c.pos), false),
        one_wall_more(left, down, c.side(), c.pos.y + 1 < c.side() && c.walled_off(below(c.pos)), c.pos, true),
        one_wall_more(down, right, c.side(), c.pos.x + 1 < c.side() && c.walled_off(right_of(c.pos)), c.pos, false),
    ensures
        right == c.scanned(),
{
    lemma_scanned(c);
    assert forall|y: int, x: int| 0 <= y < c.side() && 0 <= x < c.side() implies right[y][x]
        == c.scanned()[y][x] by {
        let q = Position { x: x as usize, y: y as usize };
        assert(at(right, q).wall_right == at(c.scanned(), q).wall_right);
        assert(at(right, q).wall_bottom == at(c.scanned(), q).wall_bottom);
    }
    assert(right =~~= c.scanned());
}

/// A carving in progress.
///
/// The visited set is kept as a grid of flags beside a running count.
pub struct Carver {
    board_size: usize,
    cells: Vec<Vec<BoardCell>>,
    seen: Vec<Vec<bool>>,
    seen_count: u128,
    stack: Vec<Position>,
    pos: Position,
    popped: bool,
}

/// The positions flagged in a grid of flags.
pub open spec fn flagged(seen: Seq<Seq<bool>>) -> Set<Position> {
    Set::new(|p: Position| p.y < seen.len() && p.x < seen[p.y as int].len() && at(seen, p))
}

impl View for Carver {
    type V = Carving;

    closed spec fn view(&self) -> Carving {
        Carving {
            board_size: self.board_size as nat,
            cells: rows(self.cells),
            visited: flagged(rows(self.seen)),
            stack: self.stack@,
            pos: self.pos,
            popped: self.popped,
        }
    }
}

impl Carver {
    /// The flags and the count agree with the visited set.
    pub closed spec fn counted(&self) -> bool {
        &&& is_square(rows(self.seen), self@.side())
        &&& self.seen_count == self@.visited.len()
    }

    /// The carver is consistent and its state satisfies the invariant.
    pub open spec fn wf(&self) -> bool {
        self.counted() && self@.inv()
    }

    /// Starts a carving for a board of the given size.
    pub fn new(board_size: usize) -> (carver: Carver)
        ensures
            carver.wf(),
            carver@ == Carving::initial(board_size as nat),
    {
        let side = board_size / 2 + 1;
        let start = Position { y: side / 2, x: side / 2 };
        let cells = square_of(side, BoardCell { wall_right: false, wall_bottom: false });
        let seen = square_of(side, false);
        let mut stack: Vec<Position> = Vec::new();
        stack.push(start);
        let carver = Carver {
            board_size,
            cells,
            seen,
            seen_count: 0,
            stack,
            pos: start,
            popped: false,
        };
        proof {
            assert(carver@.visited =~= Set::empty());
            assert(carver@.stack =~= seq![start]);
            lemma_initial_inv(board_size as nat);
        }
        carver
    }

    /// Whether another step is due.
    pub fn active(&self) -> (due: bool)
        requires
            self.wf(),
        ensures
            due == self@.active(),
    {
        assert(self.board_size * self.board_size <= u128::MAX) by (nonlinear_arith)
            requires
                self.board_size <= 0xffff_ffff_ffff_ffff,
        ;
        let limit: u128 = (self.board_size as u128) * (self.board_size as u128);
        self.stack.len() > 0 && self.seen_count < limit
    }

    /// Whether `p` has been visited.
    fn is_seen(&self, p: Position) -> (seen: bool)
        requires
            self.counted(),
            in_grid(p, self@.side()),
        ensures
            seen == self@.visited.contains(p),
    {
        assert(rows(self.seen)[p.y as int] == self.seen[p.y as int]@);
        self.seen[p.y][p.x]
    }

    /// The unvisited neighbours of the current cell, in the order up,
    /// left, down, right.
    pub fn candidates(&self) -> (moves: Vec<Position>)
        requires
            self.wf(),
        ensures
            moves@ == self@.candidates(),
    {
        let side = self.cells.len();
        let pos = self.pos;
        let mut moves: Vec<Position> = Vec::new();
        if pos.y > 0 {
            let mv = Position { y: pos.y - 1, x: pos.x };
            if !self.is_seen(mv) {
                moves.push(mv);
            }
        }
        if pos.x > 0 {
            let mv = Position { y: pos.y, x: pos.x - 1 };
            if !self.is_seen(mv) {
                moves.push(mv);
            }
        }
        if pos.y < side - 1 {
            let mv = Position { y: pos.y + 1, x: pos.x };
            if !self.is_seen(mv) {
                moves.push(mv);
            }
        }
        if pos.x < side - 1 {
            let mv = Position { y: pos.y, x: pos.x + 1 };
            if !self.is_seen(mv) {
                moves.push(mv);
            }
        }
        moves
    }

    /// Marks the current cell as visited.
    fn visit(&mut self)
        requires
            old(self).counted(),
            old(self)@.well_shaped(),
            old(self)@.active(),
        ensures
            final(self).counted(),
            final(self)@ == (Carving {
                visited: old(self)@.visited.insert(old(self).pos),
                ..old(self)@
            }),
    {
        let pos = self.pos;
        assert(rows(self.seen)[pos.y as int] == self.seen[pos.y as int]@);
        assert(self.board_size * self.board_size <= u128::MAX) by (nonlinear_arith)
            requires
                self.board_size <= 0xffff_ffff_ffff_ffff,
        ;
        if !self.seen[pos.y][pos.x] {
            self.seen[pos.y][pos.x] = true;
            self.seen_count = self.seen_count + 1;
        }
        proof {
            assert forall|y: int| 0 <= y < rows(self.seen).len() implies (#[trigger] rows(
                self.seen,
            )[y]).len() == self@.side() by {
                assert(rows(old(self).seen)[y] == old(self).seen[y]@);
            }
            assert forall|p: Position|
                self@.visited.contains(p) == old(self)@.visited.insert(pos).contains(p) by {
                if p.y < self.seen.len() {
                    assert(rows(old(self).seen)[p.y as int] == old(self).seen[p.y as int]@);
                    assert(rows(self.seen)[p.y as int] == self.seen[p.y as int]@);
                }
            }
            assert(self@.visited =~= old(self)@.visited.insert(pos));
        }
    }

    /// Puts a wall to the right of cell `p`, or below it.
    fn mark(&mut self, p: Position, bottom: bool)
        requires
            old(self).counted(),
            is_square(old(self)@.cells, old(self)@.side()),
            in_grid(p, old(self)@.side()),
        ensures
            final(self).counted(),
            one_wall_more(old(self)@.cells, final(self)@.cells, old(self)@.side(), true, p, bottom),
            final(self)@ == (Carving { cells: final(self)@.cells, ..old(self)@ }),
    {
        assert(rows(self.cells)[p.y as int] == self.cells[p.y as int]@);
        let cell = self.cells[p.y][p.x];
        if bottom {
            self.cells[p.y][p.x] = BoardCell { wall_right: cell.wall_right, wall_bottom: true };
        } else {
            self.cells[p.y][p.x] = BoardCell { wall_right: true, wall_bottom: cell.wall_bottom };
        }
        proof {
            assert forall|y: int| 0 <= y < rows(self.cells).len() implies (#[trigger] rows(
                self.cells,
            )[y]).len() == self@.side() by {
                assert(rows(old(self).cells)[y] == old(self).cells[y]@);
            }
            assert forall|q: Position| in_grid(q, old(self)@.side()) implies #[trigger] at(
                self@.cells,
                q,
            ) == if q == p {
                with_wall(at(old(self)@.cells, q), bottom)
            } else {
                at(old(self)@.cells, q)
            } by {
                assert(rows(old(self).cells)[q.y as int] == old(self).cells[q.y as int]@);
                assert(rows(self.cells)[q.y as int] == self.cells[q.y as int]@);
            }
        }
    }

    /// Visits the current cell, walls it off from the explored
    /// neighbours it did not come from, and lists the unvisited ones.
    fn scan(&mut self) -> (moves: Vec<Position>)
        requires
            old(self).counted(),
            old(self)@.well_shaped(),
            old(self)@.active(),
        ensures
            final(self).counted(),
            moves@ == old(self)@.candidates(),
            final(self)@ == (Carving {
                cells: old(self)@.scanned(),
                visited: old(self)@.visited.insert(old(self)@.pos),
                ..old(self)@
            }),
    {
        let ghost before = self@;
        let ghost n = before.side();
        let side = self.cells.len();
        let pos = self.pos;
        let top = self.stack[self.stack.len() - 1];
        let guarded = !self.popped;
        self.visit();

        let mut moves: Vec<Position> = Vec::new();
        let ghost hit_up = false;
        if pos.y > 0 {
            let mv = Position { y: pos.y - 1, x: pos.x };
            if !self.is_seen(mv) {
                moves.push(mv);
            } else if guarded && top != mv {
                self.mark(mv, true);
                proof {
                    hit_up = true;
                }
            }
        }
        let ghost after_up = self@.cells;
        assert(one_wall_more(before.cells, after_up, n, hit_up, above(pos), true));
        let ghost hit_left = false;
        if pos.x > 0 {
            let mv = Position { y: pos.y, x: pos.x - 1 };
            if !self.is_seen(mv) {
                moves.push(mv);
            } else if guarded && top != mv {
                self.mark(mv, false);
                proof {
                    hit_left = true;
                }
            }
        }
        let ghost after_left = self@.cells;
        assert(one_wall_more(after_up, after_left, n, hit_left, left_of(pos), false));
        let ghost hit_down = false;
        if pos.y < side - 1 {
            let mv = Position { y: pos.y + 1, x: pos.x };
            if !self.is_seen(mv) {
                moves.push(mv);
            } else if guarded && top != mv {
                self.mark(pos, true);
                proof {
                    hit_down = true;
                }
            }
        }
        let ghost after_down = self@.cells;
        assert(one_wall_more(after_left, after_down, n, hit_down, pos, true));
        let ghost hit_right = false;
        if pos.x < side - 1 {
            let mv = Position { y: pos.y, x: pos.x + 1 };
            if !self.is_seen(mv) {
                moves.push(mv);
            } else if guarded && top != mv {
                self.mark(pos, false);
                proof {
                    hit_right = true;
                }
            }
        }
        assert(one_wall_more(after_down, self@.cells, n, hit_right, pos, false));
        proof {
            lemma_walls_add_up(before, after_up, after_left, after_down, self@.cells);
        }
        moves
    }

    /// Takes one step: visits the current cell, walls it off from the
    /// explored neighbours it did not come from, then enters candidate
    /// number `pick` or, with no candidate, backtracks.
    pub fn step(&mut self, pick: usize)
        requires
            old(self).wf(),
            old(self)@.active(),
            old(self)@.allows(pick as int),
        ensures
            final(self).wf(),
            final(self)@ == old(self)@.step(pick as int),
    {
        let ghost before = self@;
        let pos = self.pos;
        let moves = self.scan();
        if moves.len() > 0 {
            self.stack.push(pos);
            self.popped = false;
            self.pos = moves[pick];
        } else {
            let top = self.stack.pop();
            self.pos = top.unwrap();
            self.popped = true;
        }
        proof {
            assert(self@.stack =~= before.step(pick as int).stack);
            assert(self@ == before.step(pick as int));
            lemma_step_inv(before, pick as int);
        }
    }

    /// The cell grid as carved so far.
    pub fn into_cells(self) -> (cells: Vec<Vec<BoardCell>>)
        ensures
            rows(cells) == self@.cells,
    {
        self.cells
    }
}

} // verus!
