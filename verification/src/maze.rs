//! What a maze is: a square grid of cells whose open passages connect
//! every cell to the centre.

use vstd::prelude::*;
use crate::cell::{at, in_grid, is_square, BoardCell, Position};

verus! {

/// Side of the cell grid behind a board of the requested size.
pub open spec fn gen_size(board_size: nat) -> nat {
    board_size / 2 + 1
}

/// The cell where carving starts: the centre of the grid, not a corner.
pub open spec fn start_cell(side: nat) -> Position {
    Position { x: (side / 2) as usize, y: (side / 2) as usize }
}

/// The neighbour one row up.
pub open spec fn above(p: Position) -> Position {
    Position { x: p.x, y: (p.y - 1) as usize }
}

/// The neighbour one column to the left.
pub open spec fn left_of(p: Position) -> Position {
    Position { x: (p.x - 1) as usize, y: p.y }
}

/// The neighbour one row down.
pub open spec fn below(p: Position) -> Position {
    Position { x: p.x, y: (p.y + 1) as usize }
}

/// The neighbour one column to the right.
pub open spec fn right_of(p: Position) -> Position {
    Position { x: (p.x + 1) as usize, y: p.y }
}

/// `a` and `b` are orthogonal neighbours.
pub open spec fn adjacent(a: Position, b: Position) -> bool {
    ||| a.x == b.x && (a.y + 1 == b.y || b.y + 1 == a.y)
    ||| a.y == b.y && (a.x + 1 == b.x || b.x + 1 == a.x)
}

/// Whether a wall separates two neighbouring cells. The flag lives in
/// the left cell of a horizontal pair and in the upper cell of a
/// vertical pair.
pub open spec fn wall_between(cells: Seq<Seq<BoardCell>>, a: Position, b: Position) -> bool
    recommends
        adjacent(a, b),
{
    if a.y == b.y {
        if a.x < b.x {
            at(cells, a).wall_right
        } else {
            at(cells, b).wall_right
        }
    } else {
        if a.y < b.y {
            at(cells, a).wall_bottom
        } else {
            at(cells, b).wall_bottom
        }
    }
}

/// One can step from `a` to `b`: both are cells of the grid, they are
/// neighbours, and no wall stands between them.
pub open spec fn passage(cells: Seq<Seq<BoardCell>>, a: Position, b: Position) -> bool {
    &&& in_grid(a, cells.len())
    &&& in_grid(b, cells.len())
    &&& adjacent(a, b)
    &&& !wall_between(cells, a, b)
}

/// `path` is a walk through open passages that stays inside `region`.
pub open spec fn is_walk(cells: Seq<Seq<BoardCell>>, region: Set<Position>, path: Seq<Position>) -> bool {
    &&& path.len() > 0
    &&& forall|i: int| 0 <= i < path.len() ==> region.contains(#[trigger] path[i])
    &&& forall|i: int| 0 <= i < path.len() - 1 ==> passage(cells, #[trigger] path[i], path[i + 1])
}

/// Some walk inside `region` leads from `from` to `to`.
pub open spec fn linked_within(
    cells: Seq<Seq<BoardCell>>,
    region: Set<Position>,
    from: Position,
    to: Position,
) -> bool {
    exists|path: Seq<Position>|
        #[trigger] is_walk(cells, region, path) && path[0] == from && path.last() == to
}

/// All positions of a square grid of the given side.
pub open spec fn whole_grid(side: nat) -> Set<Position> {
    Set::new(|p: Position| in_grid(p, side))
}

/// `to` can be reached from `from` through open passages.
pub open spec fn reachable(cells: Seq<Seq<BoardCell>>, from: Position, to: Position) -> bool {
    linked_within(cells, whole_grid(cells.len()), from, to)
}

/// Every cell can be reached from the start cell.
pub open spec fn fully_connected(cells: Seq<Seq<BoardCell>>) -> bool {
    forall|p: Position| in_grid(p, cells.len()) ==> #[trigger] reachable(cells, start_cell(cells.len()), p)
}

/// No cell claims a wall towards a neighbour that does not exist: the
/// last column has no right walls, the last row no bottom walls.
pub open spec fn border_clear(cells: Seq<Seq<BoardCell>>) -> bool {
    forall|p: Position|
        in_grid(p, cells.len()) ==> {
            &&& p.x + 1 == cells.len() ==> !(#[trigger] at(cells, p)).wall_right
            &&& p.y + 1 == cells.len() ==> !at(cells, p).wall_bottom
        }
}

/// The open passages of a grid, each as the pair of its two cells with
/// the left or the upper one first.
pub open spec fn open_passages(cells: Seq<Seq<BoardCell>>) -> Set<(Position, Position)> {
    Set::new(
        |e: (Position, Position)|
            passage(cells, e.0, e.1) && (e.1 == right_of(e.0) || e.1 == below(e.0)),
    )
}

/// The grid has no passage to spare: it has one passage fewer than it
/// has cells.
pub open spec fn is_sparse(cells: Seq<Seq<BoardCell>>) -> bool {
    &&& open_passages(cells).finite()
    &&& open_passages(cells).len() + 1 == cells.len() * cells.len()
}

/// A finished maze of the given side.
pub open spec fn is_maze(cells: Seq<Seq<BoardCell>>, side: nat) -> bool {
    &&& side >= 1
    &&& is_square(cells, side)
    &&& border_clear(cells)
    &&& fully_connected(cells)
}

/// The first `full_rows` rows of the grid, and the first `extra` cells
/// of the row after them.
spec fn grid_prefix(side: nat, full_rows: nat, extra: nat) -> Set<Position> {
    Set::new(
        |p: Position| p.x < side && (p.y < full_rows || (p.y == full_rows && p.x < extra)),
    )
}

proof fn lemma_grid_prefix_size(side: nat, full_rows: nat, extra: nat)
    requires
        side <= usize::MAX,
        full_rows <= side,
        extra <= side,
    ensures
        grid_prefix(side, full_rows, extra).finite(),
        grid_prefix(side, full_rows, extra).len() == side * full_rows + extra,
    decreases full_rows, extra,
{
    let here = grid_prefix(side, full_rows, extra);
    if extra > 0 {
        let before = grid_prefix(side, full_rows, (extra - 1) as nat);
        let p = Position { x: (extra - 1) as usize, y: full_rows as usize };
        lemma_grid_prefix_size(side, full_rows, (extra - 1) as nat);
        assert(!before.contains(p));
        assert(here =~= before.insert(p));
    } else if full_rows > 0 {
        let before = grid_prefix(side, (full_rows - 1) as nat, side);
        lemma_grid_prefix_size(side, (full_rows - 1) as nat, side);
        assert(here =~= before);
        assert(side * (full_rows - 1) + side == side * full_rows) by (nonlinear_arith);
    } else {
        assert(here =~= Set::empty());
        assert(side * 0 == 0) by (nonlinear_arith);
    }
}

/// A square grid of side `side` has `side * side` positions.
pub proof fn lemma_whole_grid_size(side: nat)
    requires
        side <= usize::MAX,
    ensures
        whole_grid(side).finite(),
        whole_grid(side).len() == side * side,
{
    lemma_grid_prefix_size(side, side, 0);
    assert(whole_grid(side) =~= grid_prefix(side, side, 0));
}

/// A cell is reachable from itself.
pub proof fn lemma_reachable_self(cells: Seq<Seq<BoardCell>>, p: Position)
    requires
        in_grid(p, cells.len()),
    ensures
        reachable(cells, p, p),
{
    let path = seq![p];
    assert(is_walk(cells, whole_grid(cells.len()), path) && path[0] == p && path.last() == p);
}

/// A link inside a region of grid cells is a link in the whole grid.
pub proof fn lemma_linked_is_reachable(
    cells: Seq<Seq<BoardCell>>,
    region: Set<Position>,
    from: Position,
    to: Position,
)
    requires
        forall|p: Position| #[trigger] region.contains(p) ==> in_grid(p, cells.len()),
        linked_within(cells, region, from, to),
    ensures
        reachable(cells, from, to),
{
    let path = choose|path: Seq<Position>|
        #[trigger] is_walk(cells, region, path) && path[0] == from && path.last() == to;
    assert(is_walk(cells, whole_grid(cells.len()), path));
}

} // verus!
