//! Why every game can be won: the passages of a maze are free ways on
//! its board, and a free way from the player to the goal is a sequence
//! of accepted moves.

use vstd::prelude::*;
use crate::board::{glyph_at, render_side, rendered, BLANK, GOAL, SYMBOL, WALL};
use crate::cell::{at, in_grid, is_square, placed, BoardCell, Position};
use crate::game_state::{GameView, Movement};
use crate::maze::{adjacent, is_maze, is_walk, passage, reachable, start_cell, whole_grid};

verus! {

/// The board position of a cell.
pub open spec fn doubled(p: Position) -> Position {
    Position { x: (2 * p.x) as usize, y: (2 * p.y) as usize }
}

/// The player can step between `a` and `b`: they are neighbours on the
/// board and neither shows a wall.
pub open spec fn free_step(board: Seq<Seq<char>>, a: Position, b: Position) -> bool {
    &&& in_grid(a, board.len())
    &&& in_grid(b, board.len())
    &&& adjacent(a, b)
    &&& at(board, a) != WALL
    &&& at(board, b) != WALL
}

/// `route` leads over the board in free steps.
pub open spec fn is_route(board: Seq<Seq<char>>, route: Seq<Position>) -> bool {
    &&& route.len() > 0
    &&& in_grid(route[0], board.len())
    &&& at(board, route[0]) != WALL
    &&& forall|i: int| 0 <= i < route.len() - 1 ==> free_step(board, #[trigger] route[i], route[i + 1])
}

/// Some route leads from `from` to `to`.
pub open spec fn joined(board: Seq<Seq<char>>, from: Position, to: Position) -> bool {
    exists|route: Seq<Position>| #[trigger]
        is_route(board, route) && route[0] == from && route.last() == to
}

/// Some sequence of movements wins the game.
pub open spec fn can_be_won(state: GameView) -> bool {
    exists|moves: Seq<Movement>| (#[trigger] state.after_moves(moves)).victory
}

/// Two boards of one size show walls at the same positions.
pub open spec fn same_walls(a: Seq<Seq<char>>, b: Seq<Seq<char>>) -> bool {
    &&& a.len() == b.len()
    &&& forall|p: Position|
        in_grid(p, a.len()) ==> ((#[trigger] at(a, p)) == WALL <==> at(b, p) == WALL)
}

proof fn lemma_joined_back(board: Seq<Seq<char>>, from: Position, to: Position)
    requires
        joined(board, from, to),
    ensures
        joined(board, to, from),
{
    let route = choose|route: Seq<Position>| #[trigger]
        is_route(board, route) && route[0] == from && route.last() == to;
    let back = Seq::new(route.len(), |i: int| route[route.len() - 1 - i]);
    assert forall|i: int| 0 <= i < back.len() - 1 implies free_step(
        board,
        #[trigger] back[i],
        back[i + 1],
    ) by {
        let j = route.len() - 2 - i;
        assert(free_step(board, route[j], route[j + 1]));
    }
    if route.len() > 1 {
        assert(free_step(board, route[route.len() - 2], route[route.len() - 2 + 1]));
    }
    assert(is_route(board, back) && back[0] == to && back.last() == from);
}

proof fn lemma_joined_on(board: Seq<Seq<char>>, from: Position, via: Position, to: Position)
    requires
        joined(board, from, via),
        joined(board, via, to),
    ensures
        joined(board, from, to),
{
    let first = choose|route: Seq<Position>| #[trigger]
        is_route(board, route) && route[0] == from && route.last() == via;
    let second = choose|route: Seq<Position>| #[trigger]
        is_route(board, route) && route[0] == via && route.last() == to;
    let whole = first + second.drop_first();
    assert forall|i: int| 0 <= i < whole.len() - 1 implies free_step(
        board,
        #[trigger] whole[i],
        whole[i + 1],
    ) by {
        if i < first.len() - 1 {
            assert(free_step(board, first[i], first[i + 1]));
        } else {
            let j = i - (first.len() - 1);
            assert(free_step(board, second[j], second[j + 1]));
        }
    }
    assert(is_route(board, whole) && whole[0] == from && whole.last() == to);
}

/// An open passage between two cells is a route between their board
/// positions.
proof fn lemma_passage_is_route(cells: Seq<Seq<BoardCell>>, a: Position, b: Position)
    requires
        cells.len() >= 1,
        2 * cells.len() - 1 <= usize::MAX,
        is_square(cells, cells.len()),
        passage(cells, a, b),
    ensures
        joined(rendered(cells), doubled(a), doubled(b)),
{
    let board = rendered(cells);
    let between = Position { x: (a.x + b.x) as usize, y: (a.y + b.y) as usize };
    let route = seq![doubled(a), between, doubled(b)];
    assert forall|p: Position| in_grid(p, board.len()) implies #[trigger] at(board, p) == glyph_at(
        cells,
        p.x as int,
        p.y as int,
    ) by {}
    assert(at(board, doubled(a)) == BLANK);
    assert(at(board, doubled(b)) == BLANK);
    assert(at(board, between) == BLANK);
    assert(free_step(board, route[0], route[1]));
    assert(free_step(board, route[1], route[2]));
    assert(is_route(board, route) && route[0] == doubled(a) && route.last() == doubled(b));
}

/// A walk through the cells is a route over the board.
proof fn lemma_walk_is_route(cells: Seq<Seq<BoardCell>>, path: Seq<Position>, upto: int)
    requires
        cells.len() >= 1,
        2 * cells.len() - 1 <= usize::MAX,
        is_square(cells, cells.len()),
        is_walk(cells, whole_grid(cells.len()), path),
        0 <= upto < path.len(),
    ensures
        joined(rendered(cells), doubled(path[0]), doubled(path[upto])),
    decreases upto,
{
    let board = rendered(cells);
    if upto == 0 {
        let p = path[0];
        assert(whole_grid(cells.len()).contains(p));
        let route = seq![doubled(p)];
        assert(at(board, doubled(p)) == glyph_at(cells, 2 * p.x, 2 * p.y));
        assert(is_route(board, route) && route[0] == doubled(p) && route.last() == doubled(p));
    } else {
        lemma_walk_is_route(cells, path, upto - 1);
        assert(passage(cells, path[upto - 1], path[upto - 1 + 1]));
        lemma_passage_is_route(cells, path[upto - 1], path[upto]);
        lemma_joined_on(board, doubled(path[0]), doubled(path[upto - 1]), doubled(path[upto]));
    }
}

/// On the board of a maze, the board positions of any two cells are
/// joined by a route.
pub proof fn lemma_maze_board_is_joined(cells: Seq<Seq<BoardCell>>, a: Position, b: Position)
    requires
        is_maze(cells, cells.len()),
        2 * cells.len() - 1 <= usize::MAX,
        in_grid(a, cells.len()),
        in_grid(b, cells.len()),
    ensures
        joined(rendered(cells), doubled(a), doubled(b)),
{
    let board = rendered(cells);
    let start = start_cell(cells.len());
    assert(reachable(cells, start, a));
    assert(reachable(cells, start, b));
    let to_a = choose|path: Seq<Position>| #[trigger]
        is_walk(cells, whole_grid(cells.len()), path) && path[0] == start && path.last() == a;
    let to_b = choose|path: Seq<Position>| #[trigger]
        is_walk(cells, whole_grid(cells.len()), path) && path[0] == start && path.last() == b;
    lemma_walk_is_route(cells, to_a, to_a.len() - 1);
    lemma_walk_is_route(cells, to_b, to_b.len() - 1);
    lemma_joined_back(board, doubled(start), doubled(a));
    lemma_joined_on(board, doubled(a), doubled(start), doubled(b));
}

/// A route stays a route on a board with the same walls.
proof fn lemma_route_on_same_walls(a: Seq<Seq<char>>, b: Seq<Seq<char>>, route: Seq<Position>)
    requires
        same_walls(a, b),
        is_route(a, route),
    ensures
        is_route(b, route),
{
    assert forall|i: int| 0 <= i < route.len() - 1 implies free_step(
        b,
        #[trigger] route[i],
        route[i + 1],
    ) by {
        assert(free_step(a, route[i], route[i + 1]));
    }
    if route.len() == 1 {
        assert(at(a, route[0]) != WALL);
    } else {
        assert(free_step(a, route[0], route[1]));
    }
}

/// In a running game, a route from the player to the goal can be
/// walked: each of its steps is an accepted move, and the last one wins.
proof fn lemma_route_wins(state: GameView, route: Seq<Position>)
    requires
        state.wf(),
        !state.victory,
        !state.failure,
        state.position != state.win_position,
        is_route(state.board, route),
        route[0] == state.position,
        route.last() == state.win_position,
    ensures
        can_be_won(state),
    decreases route.len(),
{
    let here = state.position;
    let next = route[1];
    assert(free_step(state.board, route[0], route[1]));
    let action = if next.y + 1 == here.y {
        Movement::UP
    } else if here.y + 1 == next.y {
        Movement::DOWN
    } else if next.x + 1 == here.x {
        Movement::LEFT
    } else {
        Movement::RIGHT
    };
    assert(state.destination(action) == next);
    let after = state.moved(action);
    if next == state.win_position {
        let moves = seq![action];
        assert(moves.drop_first() =~= Seq::<Movement>::empty());
        assert(state.after_moves(moves) == after) by {
            reveal_with_fuel(GameView::after_moves, 2);
        }
        assert(state.after_moves(moves).victory);
    } else {
        let rest = route.drop_first();
        assert(same_walls(state.board, after.board)) by {
            let blanked = placed(state.board, here, BLANK);
            assert forall|p: Position| in_grid(p, state.board.len()) implies ((#[trigger] at(
                state.board,
                p,
            )) == WALL <==> at(after.board, p) == WALL) by {
                assert(at(blanked, p) == if p == here {
                    BLANK
                } else {
                    at(state.board, p)
                });
                assert(at(after.board, p) == if p == next {
                    SYMBOL
                } else {
                    at(blanked, p)
                });
            }
        }
        assert(is_route(state.board, rest)) by {
            assert forall|i: int| 0 <= i < rest.len() - 1 implies free_step(
                state.board,
                #[trigger] rest[i],
                rest[i + 1],
            ) by {
                assert(free_step(state.board, route[i + 1], route[i + 1 + 1]));
            }
        }
        lemma_route_on_same_walls(state.board, after.board, rest);
        lemma_route_wins(after, rest);
        let later = choose|moves: Seq<Movement>| (#[trigger] after.after_moves(moves)).victory;
        let moves = seq![action] + later;
        assert(moves[0] == action);
        assert(moves.drop_first() =~= later);
        assert(state.after_moves(moves) == after.after_moves(later));
        assert(state.after_moves(moves).victory);
    }
}

/// Every game that starts on the board of a maze can be won: some
/// sequence of movements leads the player from the top-left corner to
/// the goal.
pub proof fn law_every_game_can_be_won(cells: Seq<Seq<BoardCell>>)
    requires
        is_maze(cells, cells.len()),
        2 * cells.len() - 1 <= usize::MAX,
    ensures
        can_be_won(GameView::initial(cells)),
{
    let state = GameView::initial(cells);
    let side = render_side(cells.len());
    let drawn = rendered(cells);
    let origin = Position { x: 0, y: 0 };
    let goal = Position { x: (side - 1) as usize, y: (side - 1) as usize };
    assert forall|p: Position| in_grid(p, drawn.len()) implies #[trigger] at(drawn, p) == glyph_at(
        cells,
        p.x as int,
        p.y as int,
    ) by {}
    if cells.len() == 1 {
        let moves = seq![Movement::UP];
        assert(state.destination(Movement::UP) == origin);
        assert(at(state.board, origin) == GOAL);
        assert(moves.drop_first() =~= Seq::<Movement>::empty());
        assert(state.after_moves(moves) == state.moved(Movement::UP)) by {
            reveal_with_fuel(GameView::after_moves, 2);
        }
        assert(state.after_moves(moves).victory);
    } else {
        let first = Position { x: 0, y: 0 };
        let last = Position { x: (cells.len() - 1) as usize, y: (cells.len() - 1) as usize };
        lemma_maze_board_is_joined(cells, first, last);
        assert(doubled(first) == origin);
        assert(doubled(last) == goal);
        let route = choose|route: Seq<Position>| #[trigger]
            is_route(drawn, route) && route[0] == origin && route.last() == goal;
        assert(same_walls(drawn, state.board)) by {
            let marked = placed(drawn, origin, SYMBOL);
            assert forall|p: Position| in_grid(p, drawn.len()) implies ((#[trigger] at(drawn, p))
                == WALL <==> at(state.board, p) == WALL) by {
                assert(at(marked, p) == if p == origin {
                    SYMBOL
                } else {
                    at(drawn, p)
                });
                assert(at(state.board, p) == if p == goal {
                    GOAL
                } else {
                    at(marked, p)
                });
            }
        }
        lemma_route_on_same_walls(drawn, state.board, route);
        lemma_route_wins(state, route);
    }
}

} // verus!
