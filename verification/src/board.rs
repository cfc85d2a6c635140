//! The playable board: a cell grid drawn at double resolution.
//!
//! Cell `(x, y)` stands at board position `(2x, 2y)`. The positions
//! between two cells show the wall between them, if there is one, and
//! the positions between four cells are always walls.

use vstd::prelude::*;
use crate::cell::{is_square, rows, set_at, square_of, BoardCell, Position};

verus! {

/// The glyph of a wall.
pub const WALL: char = '\u{2591}';

/// The glyph of the player.
pub const SYMBOL: char = '\u{25cf}';

/// The glyph of the goal.
pub const GOAL: char = '\u{2593}';

/// The glyph of open space.
pub const BLANK: char = ' ';

/// Side of the board drawn from a cell grid of the given side: one
/// position for each cell and one between any two.
pub open spec fn render_side(side: nat) -> nat {
    if side == 0 {
        0
    } else {
        (2 * side - 1) as nat
    }
}

/// The glyph that a cell grid puts at column `x`, row `y` of the board.
pub open spec fn glyph_at(cells: Seq<Seq<BoardCell>>, x: int, y: int) -> char {
    if x % 2 == 0 && y % 2 == 0 {
        BLANK
    } else if x % 2 == 1 && y % 2 == 1 {
        WALL
    } else if x % 2 == 1 {
        if cells[y / 2][x / 2].wall_right {
            WALL
        } else {
            BLANK
        }
    } else {
        if cells[y / 2][x / 2].wall_bottom {
            WALL
        } else {
            BLANK
        }
    }
}

/// The board drawn from a cell grid.
pub open spec fn rendered(cells: Seq<Seq<BoardCell>>) -> Seq<Seq<char>> {
    let side = render_side(cells.len());
    Seq::new(side, |y: int| Seq::new(side, |x: int| glyph_at(cells, x, y)))
}

/// Draws a cell grid as a board of side `2 * side - 1`.
///
/// The grid must be square and not empty. Right walls in the last
/// column and bottom walls in the last row have no position on the
/// board: they are not read, and whatever they say the board is the
/// same.
pub fn convert_generated_maze(generated: Vec<Vec<BoardCell>>) -> (board: Vec<Vec<char>>)
    requires
        generated.len() >= 1,
        is_square(rows(generated), generated.len() as nat),
        2 * generated.len() - 1 <= usize::MAX,
    ensures
        rows(board) == rendered(rows(generated)),
{
    let side = generated.len();
    let render_size = side + (side - 1);
    let mut board = square_of(render_size, BLANK);
    let ghost cells = rows(generated);

    let mut y: usize = 0;
    while y < side
        invariant
            y <= side,
            side == generated.len(),
            cells == rows(generated),
            is_square(cells, side as nat),
            render_size == 2 * side - 1,
            is_square(rows(board), render_size as nat),
            forall|ry: int, rx: int|
                0 <= ry < render_size && 0 <= rx < render_size ==> #[trigger] rows(board)[ry][rx]
                    == if ry / 2 < y {
                    glyph_at(cells, rx, ry)
                } else {
                    BLANK
                },
        decreases side - y,
    {
        let mut x: usize = 0;
        while x < side
            invariant
                y < side,
                x <= side,
                side == generated.len(),
                cells == rows(generated),
                is_square(cells, side as nat),
                render_size == 2 * side - 1,
                is_square(rows(board), render_size as nat),
                forall|ry: int, rx: int|
                    0 <= ry < render_size && 0 <= rx < render_size ==> #[trigger] rows(
                        board,
                    )[ry][rx] == if ry / 2 < y || (ry / 2 == y && rx / 2 < x) {
                        glyph_at(cells, rx, ry)
                    } else {
                        BLANK
                    },
            decreases side - x,
        {
            assert(cells[y as int] == generated[y as int]@);
            let c = generated[y][x];
            let ry = 2 * y;
            let rx = 2 * x;

            if y < side - 1 {
                if x < side - 1 {
                    if c.wall_bottom {
                        set_at(&mut board, Position { x: rx, y: ry + 1 }, WALL);
                    }
                    if c.wall_right {
                        set_at(&mut board, Position { x: rx + 1, y: ry }, WALL);
                    }
                    set_at(&mut board, Position { x: rx + 1, y: ry + 1 }, WALL);
                } else {
                    if c.wall_bottom {
                        set_at(&mut board, Position { x: rx, y: ry + 1 }, WALL);
                    }
                }
            } else {
                if x < side - 1 && c.wall_right {
                    set_at(&mut board, Position { x: rx + 1, y: ry }, WALL);
                }
            }
            x += 1;
        }
        y += 1;
    }
    assert(rows(board) =~~= rendered(cells));
    board
}

} // verus!
