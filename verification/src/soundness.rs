//! Why carving ends, and why it ends with a maze.
//!
//! The invariant of a carving says that walls stand only between
//! visited cells, that every visited cell is linked to the start through
//! visited cells, and that a visited cell with an unvisited neighbour is
//! current or waits on the stack. Every step keeps it; when carving
//! stops it leaves no cell unvisited.

use vstd::prelude::*;
use vstd::set_lib::{lemma_len_subset, lemma_subset_equality};
use crate::carving::{carved, is_carving_run, Carving};
use crate::cell::{at, in_grid, is_square, Position};
use crate::maze::{
    above, adjacent, below, border_clear, gen_size, is_maze, is_sparse, is_walk, left_of,
    lemma_linked_is_reachable, lemma_reachable_self, lemma_whole_grid_size, linked_within,
    open_passages, passage, reachable, right_of, start_cell, whole_grid,
};

verus! {

impl Carving {
    /// Every neighbour of `p` inside the grid has been visited.
    pub open spec fn closed(self, p: Position) -> bool {
        forall|q: Position|
            in_grid(q, self.side()) && adjacent(p, q) ==> #[trigger] self.visited.contains(q)
    }

    /// Sizes and bounds.
    pub open spec fn well_shaped(self) -> bool {
        let side = self.side();
        &&& self.board_size <= usize::MAX
        &&& is_square(self.cells, side)
        &&& border_clear(self.cells)
        &&& in_grid(self.pos, side)
        &&& forall|i: int| 0 <= i < self.stack.len() ==> in_grid(#[trigger] self.stack[i], side)
        &&& self.visited.finite()
        &&& forall|p: Position| #[trigger] self.visited.contains(p) ==> in_grid(p, side)
    }

    /// Walls stand only between two visited cells.
    pub open spec fn walls_inside(self) -> bool {
        forall|p: Position|
            in_grid(p, self.side()) ==> {
                &&& (#[trigger] at(self.cells, p)).wall_right ==> self.visited.contains(p)
                    && self.visited.contains(right_of(p))
                &&& at(self.cells, p).wall_bottom ==> self.visited.contains(p)
                    && self.visited.contains(below(p))
            }
    }

    /// How the stack, the current cell and the visited set hang together.
    pub open spec fn threaded(self) -> bool {
        let start = start_cell(self.side());
        &&& self.popped == self.visited.contains(self.pos)
        &&& forall|i: int|
            0 <= i < self.stack.len() ==> self.visited.contains(#[trigger] self.stack[i])
                || self.stack[i] == self.pos
        &&& self.stack.len() >= 1 ==> self.stack[0] == start
        &&& self.stack.len() >= 2 ==> self.stack[1] == start
        &&& self.stack.len() == 1 ==> self.pos == start
        &&& !self.visited.contains(start) ==> self.pos == start && self.stack.len() == 1
            && self.visited =~= Set::empty()
        &&& !self.popped && self.visited.contains(start) ==> self.stack.len() >= 1 && adjacent(
            self.stack.last(),
            self.pos,
        ) && self.visited.contains(self.stack.last())
    }

    /// Every visited cell is closed, waits on the stack, or is current;
    /// once the stack is empty every visited cell is closed.
    pub open spec fn explored(self) -> bool {
        &&& forall|p: Position| #[trigger]
            self.visited.contains(p) ==> self.closed(p) || self.stack.contains(p) || p == self.pos
        &&& self.stack.len() == 0 ==> self.visited.contains(start_cell(self.side()))
            && forall|p: Position| #[trigger] self.visited.contains(p) ==> self.closed(p)
    }

    /// Every visited cell is linked to the start through visited cells.
    pub open spec fn rooted(self) -> bool {
        forall|p: Position| #[trigger]
            self.visited.contains(p) ==> linked_within(
                self.cells,
                self.visited,
                start_cell(self.side()),
                p,
            )
    }

    /// The open passages between visited cells, each as the pair of its
    /// two cells with the left or the upper one first.
    pub open spec fn inner_passages(self) -> Set<(Position, Position)> {
        Set::new(
            |e: (Position, Position)|
                self.visited.contains(e.0) && self.visited.contains(e.1) && passage(
                    self.cells,
                    e.0,
                    e.1,
                ) && (e.1 == right_of(e.0) || e.1 == below(e.0)),
        )
    }

    /// Every visited cell but the first was entered through one passage,
    /// and these are all the passages between visited cells.
    pub open spec fn tallied(self) -> bool {
        &&& self.inner_passages().finite()
        &&& self.inner_passages().len() + (if self.visited.contains(start_cell(self.side())) {
            1int
        } else {
            0int
        }) == self.visited.len()
    }

    /// The invariant of a carving.
    pub open spec fn inv(self) -> bool {
        &&& self.well_shaped()
        &&& self.walls_inside()
        &&& self.threaded()
        &&& self.explored()
        &&& self.rooted()
        &&& self.tallied()
    }

    /// The number of cells that are neither visited nor current.
    pub open spec fn unexplored(self) -> int {
        self.side() * self.side() - self.visited.insert(self.pos).len()
    }
}

/// The candidates are unvisited neighbours of the current cell inside
/// the grid, and when there are none the current cell's neighbours have
/// all been visited.
pub proof fn lemma_candidates(c: Carving)
    requires
        c.board_size <= usize::MAX,
        in_grid(c.pos, c.side()),
    ensures
        c.candidates().len() <= 4,
        forall|i: int|
            0 <= i < c.candidates().len() ==> {
                let q = #[trigger] c.candidates()[i];
                in_grid(q, c.side()) && adjacent(c.pos, q) && !c.visited.contains(q) && q != c.pos
            },
        c.candidates().len() == 0 ==> c.closed(c.pos),
{
    let p = c.pos;
    let good = |q: Position|
        in_grid(q, c.side()) && adjacent(p, q) && !c.visited.contains(q) && q != p;
    let s0 = Seq::<Position>::empty();
    let s1 = if p.y > 0 && !c.visited.contains(above(p)) {
        s0.push(above(p))
    } else {
        s0
    };
    let s2 = if p.x > 0 && !c.visited.contains(left_of(p)) {
        s1.push(left_of(p))
    } else {
        s1
    };
    let s3 = if p.y + 1 < c.side() && !c.visited.contains(below(p)) {
        s2.push(below(p))
    } else {
        s2
    };
    assert(forall|i: int| 0 <= i < s1.len() ==> good(#[trigger] s1[i]));
    assert(forall|i: int| 0 <= i < s2.len() ==> good(#[trigger] s2[i]));
    assert(forall|i: int| 0 <= i < s3.len() ==> good(#[trigger] s3[i]));
    assert(forall|i: int| 0 <= i < c.candidates().len() ==> good(#[trigger] c.candidates()[i]));
    if c.candidates().len() == 0 {
        assert forall|q: Position| in_grid(q, c.side()) && adjacent(p, q) implies c.visited.contains(
            q,
        ) by {
            if q.x == p.x && q.y + 1 == p.y {
                assert(q == above(p));
            } else if q.x == p.x {
                assert(q == below(p));
            } else if q.x + 1 == p.x {
                assert(q == left_of(p));
            } else {
                assert(q == right_of(p));
            }
        }
    }
}

/// What the scan leaves in each cell, cell by cell.
pub proof fn lemma_scanned(c: Carving)
    requires
        c.well_shaped(),
    ensures
        is_square(c.scanned(), c.side()),
        forall|p: Position|
            in_grid(p, c.side()) ==> {
                &&& (#[trigger] at(c.scanned(), p)).wall_right == (at(c.cells, p).wall_right || (p.x
                    + 1 < c.side() && c.marks(p, right_of(p))))
                &&& at(c.scanned(), p).wall_bottom == (at(c.cells, p).wall_bottom || (p.y + 1
                    < c.side() && c.marks(p, below(p))))
            },
{
    assert forall|p: Position| in_grid(p, c.side()) implies {
        &&& (#[trigger] at(c.scanned(), p)).wall_right == (at(c.cells, p).wall_right || (p.x + 1
            < c.side() && c.marks(p, right_of(p))))
        &&& at(c.scanned(), p).wall_bottom == (at(c.cells, p).wall_bottom || (p.y + 1 < c.side()
            && c.marks(p, below(p))))
    } by {
        let here = Position { x: (p.x as int) as usize, y: (p.y as int) as usize };
        assert(here == p);
    }
}

/// A step keeps sizes and bounds.
proof fn lemma_step_well_shaped(c: Carving, pick: int)
    requires
        c.inv(),
        c.active(),
        c.allows(pick),
    ensures
        c.step(pick).well_shaped(),
{
    lemma_candidates(c);
    lemma_scanned(c);
    if c.candidates().len() > 0 {
        assert(in_grid(c.candidates()[pick], c.side()));
    } else {
        assert(in_grid(c.stack[c.stack.len() - 1], c.side()));
    }
}

/// A step puts walls only between visited cells.
proof fn lemma_step_walls_inside(c: Carving, pick: int)
    requires
        c.inv(),
        c.active(),
        c.allows(pick),
    ensures
        c.step(pick).walls_inside(),
{
    lemma_scanned(c);
}

/// A step keeps the stack, the current cell and the visited set in line.
proof fn lemma_step_threaded(c: Carving, pick: int)
    requires
        c.inv(),
        c.active(),
        c.allows(pick),
    ensures
        c.step(pick).threaded(),
{
    let d = c.step(pick);
    lemma_candidates(c);
    assert(d.visited.contains(start_cell(d.side())));
    if c.candidates().len() > 0 {
        let q = c.candidates()[pick];
        assert(!c.visited.contains(q) && q != c.pos);
        assert(d.stack.last() == c.pos);
    } else {
        let top = c.stack[c.stack.len() - 1];
        assert(c.visited.contains(top) || top == c.pos);
    }
}

/// A step leaves every visited cell closed, stacked or current.
proof fn lemma_step_explored(c: Carving, pick: int)
    requires
        c.inv(),
        c.active(),
        c.allows(pick),
    ensures
        c.step(pick).explored(),
{
    let d = c.step(pick);
    lemma_candidates(c);
    assert forall|p: Position| c.closed(p) implies d.closed(p) by {
        assert forall|q: Position| in_grid(q, d.side()) && adjacent(p, q) implies #[trigger]
            d.visited.contains(q) by {
            assert(c.visited.contains(q));
        }
    }
    assert forall|p: Position| #[trigger] d.visited.contains(p) implies d.closed(p)
        || d.stack.contains(p) || p == d.pos by {
        if c.candidates().len() > 0 {
            assert(d.stack[d.stack.len() - 1] == c.pos);
            if p != c.pos && c.stack.contains(p) {
                let i = choose|i: int| 0 <= i < c.stack.len() && c.stack[i] == p;
                assert(d.stack[i] == p);
            }
        } else {
            if p != c.pos && !c.closed(p) && c.stack.contains(p) {
                let i = choose|i: int| 0 <= i < c.stack.len() && c.stack[i] == p;
                if i < c.stack.len() - 1 {
                    assert(d.stack[i] == p);
                }
            }
        }
    }
    if d.stack.len() == 0 {
        assert(c.stack.len() == 1);
        assert(d.pos == c.pos);
        assert forall|p: Position| #[trigger] d.visited.contains(p) implies d.closed(p) by {
            assert(!d.stack.contains(p));
        }
    }
}

/// The scan leaves a passage between two cells visited before it open.
proof fn lemma_scan_keeps_passage(c: Carving, a: Position, b: Position)
    requires
        c.inv(),
        c.visited.contains(a),
        c.visited.contains(b),
        passage(c.cells, a, b),
    ensures
        passage(c.scanned(), a, b),
{
    lemma_scanned(c);
    assert(!c.marks(a, b) && !c.marks(b, a));
    if a.y == b.y {
        if a.x < b.x {
            assert(b == right_of(a));
        } else {
            assert(a == right_of(b));
        }
    } else {
        if a.y < b.y {
            assert(b == below(a));
        } else {
            assert(a == below(b));
        }
    }
}

/// A walk through cells visited before the scan is still a walk after it.
proof fn lemma_scan_keeps_walk(c: Carving, path: Seq<Position>)
    requires
        c.inv(),
        is_walk(c.cells, c.visited, path),
    ensures
        is_walk(c.scanned(), c.visited.insert(c.pos), path),
{
    assert forall|i: int| 0 <= i < path.len() - 1 implies passage(
        c.scanned(),
        #[trigger] path[i],
        path[i + 1],
    ) by {
        assert(c.visited.contains(path[i + 1]));
        lemma_scan_keeps_passage(c, path[i], path[i + 1]);
    }
}

/// The scan leaves the passage from the top of the stack into a newly
/// entered cell open.
proof fn lemma_scan_keeps_entry(c: Carving)
    requires
        c.inv(),
        c.active(),
        !c.popped,
        c.visited.contains(start_cell(c.side())),
    ensures
        passage(c.scanned(), c.stack.last(), c.pos),
{
    let top = c.stack.last();
    lemma_scanned(c);
    assert(in_grid(top, c.side())) by {
        assert(top == c.stack[c.stack.len() - 1]);
    }
    assert(!c.marks(top, c.pos) && !c.marks(c.pos, top));
    if top.y == c.pos.y {
        if top.x < c.pos.x {
            assert(c.pos == right_of(top));
        } else {
            assert(top == right_of(c.pos));
        }
    } else {
        if top.y < c.pos.y {
            assert(c.pos == below(top));
        } else {
            assert(top == below(c.pos));
        }
    }
}

/// A step keeps every visited cell linked to the start.
proof fn lemma_step_rooted(c: Carving, pick: int)
    requires
        c.inv(),
        c.active(),
        c.allows(pick),
    ensures
        c.step(pick).rooted(),
{
    let d = c.step(pick);
    let start = start_cell(c.side());
    assert(d.cells == c.scanned());
    assert(d.visited == c.visited.insert(c.pos));
    assert forall|p: Position| #[trigger] d.visited.contains(p) implies linked_within(
        d.cells,
        d.visited,
        start,
        p,
    ) by {
        if c.visited.contains(p) {
            let path = choose|path: Seq<Position>|
                #[trigger] is_walk(c.cells, c.visited, path) && path[0] == start && path.last()
                    == p;
            lemma_scan_keeps_walk(c, path);
            assert(is_walk(d.cells, d.visited, path) && path[0] == start && path.last() == p);
        } else if !c.visited.contains(start) {
            let path = seq![start];
            assert(is_walk(d.cells, d.visited, path) && path[0] == start && path.last() == p);
        } else {
            let top = c.stack.last();
            let path = choose|path: Seq<Position>|
                #[trigger] is_walk(c.cells, c.visited, path) && path[0] == start && path.last()
                    == top;
            lemma_scan_keeps_walk(c, path);
            lemma_scan_keeps_entry(c);
            let longer = path.push(p);
            assert forall|i: int| 0 <= i < longer.len() - 1 implies passage(
                d.cells,
                #[trigger] longer[i],
                longer[i + 1],
            ) by {
                if i < path.len() - 1 {
                    assert(longer[i] == path[i] && longer[i + 1] == path[i + 1]);
                } else {
                    assert(longer[i] == top && longer[i + 1] == p);
                }
            }
            assert(is_walk(d.cells, d.visited, longer) && longer[0] == start && longer.last() == p);
        }
    }
}

/// A step opens one passage for the cell it visits for the first time,
/// and none otherwise.
proof fn lemma_step_tallied(c: Carving, pick: int)
    requires
        c.inv(),
        c.active(),
        c.allows(pick),
    ensures
        c.step(pick).tallied(),
{
    let d = c.step(pick);
    let start = start_cell(c.side());
    let here = c.pos;
    lemma_scanned(c);
    assert(d.cells == c.scanned());
    assert(d.visited == c.visited.insert(here));
    if c.visited.contains(here) {
        assert forall|e: (Position, Position)|
            c.inner_passages().contains(e) == d.inner_passages().contains(e) by {
            if c.visited.contains(e.0) && c.visited.contains(e.1) && (e.1 == right_of(e.0) || e.1
                == below(e.0)) {
                assert(!c.marks(e.0, e.1));
            }
        }
        assert(d.inner_passages() =~= c.inner_passages());
        assert(d.visited =~= c.visited);
    } else if !c.visited.contains(start) {
        assert forall|e: (Position, Position)| !d.inner_passages().contains(e) by {
            if d.visited.contains(e.0) && d.visited.contains(e.1) {
                assert(e.0 == e.1);
            }
        }
        assert(d.inner_passages() =~= Set::empty());
    } else {
        let top = c.stack.last();
        assert(top == c.stack[c.stack.len() - 1]);
        lemma_scan_keeps_entry(c);
        let entry = if here == right_of(top) || here == below(top) {
            (top, here)
        } else {
            (here, top)
        };
        assert(entry.1 == right_of(entry.0) || entry.1 == below(entry.0));
        assert(!c.inner_passages().contains(entry));
        assert forall|e: (Position, Position)|
            d.inner_passages().contains(e) == c.inner_passages().insert(entry).contains(e) by {
            if e.1 == right_of(e.0) || e.1 == below(e.0) {
                if e.0 != here && e.1 != here {
                    assert(!c.marks(e.0, e.1));
                } else if e == entry {
                } else if in_grid(e.0, c.side()) && in_grid(e.1, c.side()) {
                    let other = if e.0 == here {
                        e.1
                    } else {
                        e.0
                    };
                    assert(other != top);
                    if c.visited.contains(other) {
                        assert(c.marks(e.0, e.1));
                    }
                }
            }
        }
        assert(d.inner_passages() =~= c.inner_passages().insert(entry));
    }
}

/// A step of an active carving keeps the invariant.
pub proof fn lemma_step_inv(c: Carving, pick: int)
    requires
        c.inv(),
        c.active(),
        c.allows(pick),
    ensures
        c.step(pick).inv(),
{
    lemma_step_well_shaped(c, pick);
    lemma_step_walls_inside(c, pick);
    lemma_step_threaded(c, pick);
    lemma_step_explored(c, pick);
    lemma_step_rooted(c, pick);
    lemma_step_tallied(c, pick);
}

/// The initial state satisfies the invariant.
pub proof fn lemma_initial_inv(board_size: nat)
    requires
        board_size <= usize::MAX,
    ensures
        Carving::initial(board_size).inv(),
{
    let c = Carving::initial(board_size);
    assert(c.stack[0] == start_cell(c.side()));
    assert(c.explored());
    assert(c.inner_passages() =~= Set::empty());
}

/// No more cells are visited than the grid has.
pub proof fn lemma_visited_bound(c: Carving)
    requires
        c.well_shaped(),
    ensures
        c.visited.len() <= c.side() * c.side(),
        c.visited.insert(c.pos).len() <= c.side() * c.side(),
        c.visited.len() == c.side() * c.side() ==> c.visited =~= whole_grid(c.side()),
{
    let all = whole_grid(c.side());
    lemma_whole_grid_size(c.side());
    assert(c.visited.subset_of(all));
    assert(c.visited.insert(c.pos).subset_of(all));
    lemma_len_subset(c.visited, all);
    lemma_len_subset(c.visited.insert(c.pos), all);
    if c.visited.len() == c.side() * c.side() {
        lemma_subset_equality(c.visited, all);
    }
}

/// Every step makes progress: it takes a cell out of the unexplored
/// ones, or leaves them as they are and shortens the stack.
pub proof fn lemma_step_progress(c: Carving, pick: int)
    requires
        c.inv(),
        c.active(),
        c.allows(pick),
    ensures
        0 <= c.step(pick).unexplored(),
        c.step(pick).unexplored() < c.unexplored() || (c.step(pick).unexplored() == c.unexplored()
            && c.step(pick).stack.len() < c.stack.len()),
{
    let d = c.step(pick);
    lemma_candidates(c);
    lemma_step_inv(c, pick);
    lemma_visited_bound(c);
    lemma_visited_bound(d);
    if c.candidates().len() > 0 {
        let q = c.candidates()[pick];
        assert(!c.visited.insert(c.pos).contains(q));
    } else {
        let top = c.stack[c.stack.len() - 1];
        assert(c.visited.contains(top) || top == c.pos);
        assert(d.visited.insert(d.pos) =~= c.visited.insert(c.pos));
    }
}

/// Absolute difference of two coordinates.
spec fn gap(a: usize, b: usize) -> nat {
    if a < b {
        (b - a) as nat
    } else {
        (a - b) as nat
    }
}

/// Once the start is visited and every visited cell is closed, every
/// cell of the grid is visited.
proof fn lemma_closed_covers(c: Carving, p: Position)
    requires
        c.well_shaped(),
        c.visited.contains(start_cell(c.side())),
        forall|v: Position| #[trigger] c.visited.contains(v) ==> c.closed(v),
        in_grid(p, c.side()),
    ensures
        c.visited.contains(p),
    decreases gap(p.x, start_cell(c.side()).x) + gap(p.y, start_cell(c.side()).y),
{
    let start = start_cell(c.side());
    if p != start {
        let q = if p.x > start.x {
            left_of(p)
        } else if p.x < start.x {
            right_of(p)
        } else if p.y > start.y {
            above(p)
        } else {
            below(p)
        };
        assert(in_grid(q, c.side()) && adjacent(q, p));
        lemma_closed_covers(c, q);
        assert(c.closed(q));
    }
}

/// When carving has stopped, the cells form a maze.
pub proof fn lemma_finished_is_maze(c: Carving)
    requires
        c.inv(),
        !c.active(),
    ensures
        is_maze(c.cells, c.side()),
{
    let side = c.side();
    let start = start_cell(side);
    assert forall|p: Position| in_grid(p, c.cells.len()) implies #[trigger] reachable(
        c.cells,
        start,
        p,
    ) by {
        if c.stack.len() == 0 {
            lemma_closed_covers(c, p);
        } else if c.board_size == 0 {
            assert(p == start);
        } else {
            lemma_visited_bound(c);
            assert(side * side <= c.board_size * c.board_size) by (nonlinear_arith)
                requires
                    side <= c.board_size,
            ;
            assert(whole_grid(side).contains(p));
        }
        if c.visited.contains(p) {
            lemma_linked_is_reachable(c.cells, c.visited, start, p);
        } else {
            lemma_reachable_self(c.cells, p);
        }
    }
}

/// When carving has stopped, the maze has no passage to spare.
pub proof fn lemma_finished_is_sparse(c: Carving)
    requires
        c.inv(),
        !c.active(),
    ensures
        is_sparse(c.cells),
{
    let side = c.side();
    assert(c.cells.len() == side);
    if side == 1 {
        assert forall|e: (Position, Position)| !open_passages(c.cells).contains(e) by {
            if in_grid(e.0, 1) && in_grid(e.1, 1) {
                assert(e.0 == e.1);
            }
        }
        assert(open_passages(c.cells) =~= Set::empty());
        assert(c.cells.len() * c.cells.len() == 1) by (nonlinear_arith)
            requires
                c.cells.len() == 1,
        ;
    } else {
        assert forall|p: Position| in_grid(p, side) implies c.visited.contains(p) by {
            if c.stack.len() == 0 {
                lemma_closed_covers(c, p);
            } else {
                lemma_visited_bound(c);
                assert(side * side <= c.board_size * c.board_size) by (nonlinear_arith)
                    requires
                        side <= c.board_size,
                ;
                assert(whole_grid(side).contains(p));
            }
        }
        assert(open_passages(c.cells) =~= c.inner_passages());
        assert(c.visited =~= whole_grid(side));
        lemma_whole_grid_size(side);
        assert(c.visited.contains(start_cell(side)));
    }
}

/// Along a run, every state satisfies the invariant.
proof fn lemma_run_keeps_inv(board_size: nat, picks: Seq<int>, upto: int)
    requires
        board_size <= usize::MAX,
        is_carving_run(board_size, picks),
        0 <= upto <= picks.len(),
    ensures
        carved(board_size, picks.take(upto)).inv(),
        carved(board_size, picks.take(upto)).board_size == board_size,
    decreases upto,
{
    if upto == 0 {
        lemma_initial_inv(board_size);
    } else {
        let before = picks.take(upto - 1);
        lemma_run_keeps_inv(board_size, picks, upto - 1);
        assert(picks.take(upto).drop_last() =~= before);
        assert(picks.take(upto).last() == picks[upto - 1]);
        assert(carved(board_size, before).active());
        lemma_step_inv(carved(board_size, before), picks[upto - 1]);
    }
}

/// Whatever candidates are picked, a run of the carving ends with a
/// maze: a square grid of side `board_size / 2 + 1` in which every cell
/// can be reached from the centre, through passages of which none is to
/// spare.
pub proof fn law_every_run_ends_with_a_maze(board_size: nat, picks: Seq<int>)
    requires
        board_size <= usize::MAX,
        is_carving_run(board_size, picks),
    ensures
        is_maze(carved(board_size, picks).cells, gen_size(board_size)),
        is_sparse(carved(board_size, picks).cells),
{
    lemma_run_keeps_inv(board_size, picks, picks.len() as int);
    assert(picks.take(picks.len() as int) =~= picks);
    lemma_finished_is_maze(carved(board_size, picks));
    lemma_finished_is_sparse(carved(board_size, picks));
}

} // verus!
