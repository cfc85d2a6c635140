//! Coordinates, maze cells and square grids of values.

use vstd::prelude::*;

verus! {

/// A grid coordinate: `x` is the column, `y` the row.
///
/// The same type is used for cell-graph coordinates and for board
/// coordinates; a board coordinate is twice the cell coordinate.
#[derive(Debug, Clone, Copy, PartialEq, Eq, Structural, Hash)]
pub struct Position {
    pub x: usize,
    pub y: usize,
}

/// One node of the cell graph. Walls are recorded from the lower-indexed
/// cell: `wall_right` separates the cell from its right neighbour,
/// `wall_bottom` from the neighbour below.
#[derive(Debug, Clone, Copy, PartialEq, Eq, Structural)]
pub struct BoardCell {
    pub wall_right: bool,
    pub wall_bottom: bool,
}

/// The rows of a nested vector as a sequence of sequences.
pub open spec fn rows<T>(grid: Vec<Vec<T>>) -> Seq<Seq<T>> {
    Seq::new(grid@.len(), |y: int| grid@[y]@)
}

/// `grid` has `side` rows of `side` entries each.
pub open spec fn is_square<T>(grid: Seq<Seq<T>>, side: nat) -> bool {
    &&& grid.len() == side
    &&& forall|y: int| 0 <= y < side ==> (#[trigger] grid[y]).len() == side
}

/// `p` lies inside a square grid of the given side.
pub open spec fn in_grid(p: Position, side: nat) -> bool {
    p.x < side && p.y < side
}

/// The entry of `grid` at `p`.
pub open spec fn at<T>(grid: Seq<Seq<T>>, p: Position) -> T
    recommends
        p.y < grid.len(),
        p.x < grid[p.y as int].len(),
{
    grid[p.y as int][p.x as int]
}

/// A square grid with every entry equal to `fill`.
pub open spec fn filled<T>(side: nat, fill: T) -> Seq<Seq<T>> {
    Seq::new(side, |y: int| Seq::new(side, |x: int| fill))
}

/// Builds a `side` by `side` grid with every entry equal to `fill`.
pub fn square_of<T: Copy>(side: usize, fill: T) -> (grid: Vec<Vec<T>>)
    ensures
        rows(grid) == filled(side as nat, fill),
        is_square(rows(grid), side as nat),
{
    let mut grid: Vec<Vec<T>> = Vec::new();
    let mut y: usize = 0;
    while y < side
        invariant
            y <= side,
            grid.len() == y,
            forall|j: int| 0 <= j < y ==> (#[trigger] grid[j])@ == Seq::new(side as nat, |x: int| fill),
        decreases side - y,
    {
        let mut row: Vec<T> = Vec::new();
        let mut x: usize = 0;
        while x < side
            invariant
                x <= side,
                row.len() == x,
                forall|i: int| 0 <= i < x ==> row[i] == fill,
            decreases side - x,
        {
            row.push(fill);
            x += 1;
        }
        assert(row@ =~= Seq::new(side as nat, |x: int| fill));
        grid.push(row);
        y += 1;
    }
    assert(rows(grid) =~= filled(side as nat, fill));
    grid
}

/// `grid` with the entry at `p` replaced by `value`.
pub open spec fn placed<T>(grid: Seq<Seq<T>>, p: Position, value: T) -> Seq<Seq<T>>
    recommends
        p.y < grid.len(),
        p.x < grid[p.y as int].len(),
{
    grid.update(p.y as int, grid[p.y as int].update(p.x as int, value))
}

/// Overwrites the entry of `grid` at `p`.
pub fn set_at<T>(grid: &mut Vec<Vec<T>>, p: Position, value: T)
    requires
        p.y < rows(*old(grid)).len(),
        p.x < rows(*old(grid))[p.y as int].len(),
    ensures
        rows(*final(grid)) == placed(rows(*old(grid)), p, value),
{
    grid[p.y][p.x] = value;
    assert(rows(*grid) =~~= placed(rows(*old(grid)), p, value));
}

} // verus!
