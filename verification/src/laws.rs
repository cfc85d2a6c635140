//! What holds of every game, proved over the mathematical state.

use vstd::prelude::*;
use crate::board::{glyph_at, render_side, rendered, BLANK, GOAL, SYMBOL, WALL};
use crate::cell::{at, in_grid, is_square, placed, BoardCell, Position};
use crate::game_state::{Clock, GameView, Movement, StateEvent};
use crate::maze::{fully_connected, gen_size, is_maze};

verus! {

/// The board drawn from a non-empty cell grid is square, and its side
/// is odd.
pub proof fn law_board_is_square_and_odd(cells: Seq<Seq<BoardCell>>)
    requires
        cells.len() >= 1,
    ensures
        is_square(rendered(cells), render_side(cells.len())),
        render_side(cells.len()) == 2 * cells.len() - 1,
        render_side(cells.len()) % 2 == 1,
{
}

/// Walls towards the outside are not drawn: two cell grids of one size
/// that agree on every wall between two cells draw the same board,
/// whatever the right walls of their last column and the bottom walls of
/// their last row say.
pub proof fn law_outer_walls_are_not_drawn(a: Seq<Seq<BoardCell>>, b: Seq<Seq<BoardCell>>)
    requires
        a.len() == b.len(),
        forall|x: int, y: int|
            0 <= x < a.len() && 0 <= y < a.len() ==> {
                &&& x + 1 < a.len() ==> (#[trigger] a[y][x]).wall_right == b[y][x].wall_right
                &&& y + 1 < a.len() ==> a[y][x].wall_bottom == b[y][x].wall_bottom
            },
    ensures
        rendered(a) == rendered(b),
{
    assert forall|y: int, x: int|
        0 <= y < render_side(a.len()) && 0 <= x < render_side(a.len()) implies glyph_at(a, x, y)
        == glyph_at(b, x, y) by {
        let cell = a[y / 2][x / 2];
        assert(x % 2 == 1 ==> x / 2 + 1 < a.len());
        assert(y % 2 == 1 ==> y / 2 + 1 < a.len());
        assert(x % 2 == 1 ==> cell.wall_right == b[y / 2][x / 2].wall_right);
        assert(y % 2 == 1 ==> cell.wall_bottom == b[y / 2][x / 2].wall_bottom);
    }
    assert(rendered(a) =~~= rendered(b));
}

/// A maze carved for a board size yields a board of odd side
/// `2 * (board_size / 2 + 1) - 1`, and every cell of the maze can be
/// reached from the start cell.
pub proof fn law_carved_board(board_size: nat, cells: Seq<Seq<BoardCell>>)
    requires
        is_maze(cells, gen_size(board_size)),
    ensures
        is_square(rendered(cells), (2 * (board_size / 2 + 1) - 1) as nat),
        (2 * (board_size / 2 + 1) - 1) % 2 == 1,
        fully_connected(cells),
{
    law_board_is_square_and_odd(cells);
}

/// A movement into a wall, and any movement once the game is won or
/// lost, leaves every part of the state as it was.
pub proof fn law_rejected_move_changes_nothing(state: GameView, action: Movement)
    requires
        state.victory || state.failure || at(state.board, state.destination(action)) == WALL,
    ensures
        state.moved(action) == state,
{
}

/// Moving up from the first row, left from the first column, down from
/// the last row or right from the last column never moves the player.
pub proof fn law_border_stops_movement(state: GameView, action: Movement)
    requires
        state.wf(),
        match action {
            Movement::UP => state.position.y == 0,
            Movement::LEFT => state.position.x == 0,
            Movement::DOWN => state.position.y + 1 == state.board.len(),
            Movement::RIGHT => state.position.x + 1 == state.board.len(),
        },
    ensures
        state.moved(action).position == state.position,
{
}

/// In a running game, a movement from beside the goal onto the goal
/// wins: the position left is blank, the goal shows the player, and the
/// player stands on it.
pub proof fn law_reaching_goal_wins(state: GameView, action: Movement)
    requires
        state.wf(),
        !state.victory,
        !state.failure,
        state.position != state.win_position,
        state.destination(action) == state.win_position,
        at(state.board, state.win_position) != WALL,
    ensures
        state.moved(action).victory,
        !state.moved(action).failure,
        state.moved(action).position == state.win_position,
        at(state.moved(action).board, state.position) == BLANK,
        at(state.moved(action).board, state.win_position) == SYMBOL,
{
}

/// Taking at least the remaining time leaves zero, never a wrapped
/// value, and loses a game that has not been won.
pub proof fn law_timer_stops_at_zero(state: GameView, amount: u32)
    requires
        amount >= state.time_remaining,
    ensures
        state.ticked(Clock::SUB(amount)).time_remaining == 0,
        !state.victory ==> state.ticked(Clock::SUB(amount)).failure,
{
}

/// Adding time never wraps: the clock stops at the largest value.
pub proof fn law_timer_stops_at_maximum(state: GameView, amount: u32)
    ensures
        state.ticked(Clock::ADD(amount)).time_remaining >= state.time_remaining,
        state.ticked(Clock::ADD(amount)).time_remaining == if state.time_remaining + amount
            <= u32::MAX {
            state.time_remaining + amount
        } else {
            u32::MAX as int
        },
{
}

/// Once the game is won, no clock event loses it, whatever time it
/// leaves.
pub proof fn law_victory_outlasts_timer(state: GameView, ev: Clock)
    requires
        state.victory,
    ensures
        state.ticked(ev).victory,
        state.ticked(ev).failure == state.failure,
{
}

/// Won and lost are final and exclude each other: no event clears
/// either flag, and no event sets one while the other is set.
pub proof fn law_outcomes_are_final(state: GameView, ev: StateEvent)
    ensures
        state.victory ==> state.applied(ev).victory,
        state.failure ==> state.applied(ev).failure,
        !(state.victory && state.failure) ==> !(state.applied(ev).victory && state.applied(
            ev,
        ).failure),
{
}

/// Once the game is won or lost, the player stays put and the board
/// stays as it is, whatever the event.
pub proof fn law_nothing_moves_after_the_end(state: GameView, ev: StateEvent)
    requires
        state.terminal(),
    ensures
        state.applied(ev).terminal(),
        state.applied(ev).position == state.position,
        state.applied(ev).board == state.board,
{
}

/// No event moves the goal or resizes the board, and the player stays
/// on the board.
pub proof fn law_events_keep_the_board(state: GameView, ev: StateEvent)
    requires
        state.wf(),
    ensures
        state.applied(ev).wf(),
        state.applied(ev).win_position == state.win_position,
        state.applied(ev).board.len() == state.board.len(),
{
}

/// The player glyph marks the player's position and no other.
pub open spec fn shows_one_player(state: GameView) -> bool {
    forall|p: Position|
        in_grid(p, state.board.len()) ==> ((#[trigger] at(state.board, p)) == SYMBOL <==> p
            == state.position)
}

/// A game that shows exactly one player glyph, at the player's
/// position, still does so after any event.
pub proof fn law_one_player_glyph(state: GameView, ev: StateEvent)
    requires
        state.wf(),
        shows_one_player(state),
    ensures
        shows_one_player(state.applied(ev)),
{
    let next = state.applied(ev);
    assert forall|p: Position| in_grid(p, next.board.len()) implies ((#[trigger] at(next.board, p))
        == SYMBOL <==> p == next.position) by {
        if let StateEvent::Movement(action) = ev {
            let to = state.destination(action);
            assert(in_grid(to, state.board.len()));
            if state.accepts(to) {
                let blanked = placed(state.board, state.position, BLANK);
                assert(at(blanked, p) == if p == state.position {
                    BLANK
                } else {
                    at(state.board, p)
                });
                assert(at(next.board, p) == if p == to {
                    SYMBOL
                } else {
                    at(blanked, p)
                });
            }
        }
    }
}

/// A game started on a cell grid of side two or more shows exactly one
/// player glyph, in the top-left corner, and the goal glyph in the
/// bottom-right one.
pub proof fn law_start_shows_one_player(cells: Seq<Seq<BoardCell>>)
    requires
        cells.len() >= 2,
        2 * cells.len() - 1 <= usize::MAX,
    ensures
        GameView::initial(cells).wf(),
        shows_one_player(GameView::initial(cells)),
        at(GameView::initial(cells).board, GameView::initial(cells).win_position) == GOAL,
{
    let start = GameView::initial(cells);
    assert forall|p: Position| in_grid(p, start.board.len()) implies ((#[trigger] at(
        start.board,
        p,
    )) == SYMBOL <==> p == start.position) by {
        assert(rendered(cells)[p.y as int][p.x as int] == glyph_at(cells, p.x as int, p.y as int));
    }
}

} // verus!
