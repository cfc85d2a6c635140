use maze_game::board::{BLANK, GOAL, SYMBOL, WALL};
use maze_game::cell::{BoardCell, Position};
use maze_game::game_state::{Clock, GameState, Movement, StateEvent};

fn cell(wall_right: bool, wall_bottom: bool) -> BoardCell {
    BoardCell { wall_right, wall_bottom }
}

fn at(x: usize, y: usize) -> Position {
    Position { x, y }
}

/// A game on a fixed maze of side three. Its board, with `#` for walls,
/// `P` for the player and `G` for the goal:
///
/// ```text
/// P..#.
/// .#.#.
/// .#.#.
/// .###.
/// ....G
/// ```
fn fixed_game() -> GameState {
    GameState::with_maze(vec![
        vec![cell(false, false), cell(true, false), cell(false, false)],
        vec![cell(true, false), cell(true, true), cell(false, false)],
        vec![cell(false, false), cell(false, false), cell(false, false)],
    ])
}

fn glyphs(rows: &[&str]) -> Vec<Vec<char>> {
    rows.iter()
        .map(|row| {
            row.chars()
                .map(|c| match c {
                    '#' => WALL,
                    'P' => SYMBOL,
                    'G' => GOAL,
                    _ => BLANK,
                })
                .collect()
        })
        .collect()
}

fn count_of(state: &GameState, glyph: char) -> usize {
    state.board.iter().flatten().filter(|c| **c == glyph).count()
}

/// The fields of a state, for comparing two states part by part.
fn parts(state: &GameState) -> (Vec<Vec<char>>, Position, Position, bool, bool, u32) {
    (
        state.board.clone(),
        state.position,
        state.win_position,
        state.victory,
        state.failure,
        state.time_remaining,
    )
}

/// Directions that lead from the player to the goal over positions
/// that show no wall.
fn way_to_goal(state: &GameState) -> Vec<Movement> {
    let side = state.board.len();
    let mut came_from: Vec<Vec<Option<(usize, usize, Movement)>>> = vec![vec![None; side]; side];
    let mut seen = vec![vec![false; side]; side];
    let start = (state.position.x, state.position.y);
    let goal = (state.win_position.x, state.win_position.y);
    seen[start.1][start.0] = true;
    let mut queue = std::collections::VecDeque::new();
    queue.push_back(start);
    while let Some((x, y)) = queue.pop_front() {
        let mut next = Vec::new();
        if y > 0 {
            next.push((x, y - 1, Movement::UP));
        }
        if y + 1 < side {
            next.push((x, y + 1, Movement::DOWN));
        }
        if x > 0 {
            next.push((x - 1, y, Movement::LEFT));
        }
        if x + 1 < side {
            next.push((x + 1, y, Movement::RIGHT));
        }
        for (nx, ny, dir) in next {
            if !seen[ny][nx] && state.board[ny][nx] != WALL {
                seen[ny][nx] = true;
                came_from[ny][nx] = Some((x, y, dir));
                queue.push_back((nx, ny));
            }
        }
    }
    assert!(seen[goal.1][goal.0], "the goal cannot be reached");
    let mut way = Vec::new();
    let mut here = goal;
    while here != start {
        let (x, y, dir) = came_from[here.1][here.0].unwrap();
        way.push(dir);
        here = (x, y);
    }
    way.reverse();
    way
}

#[test]
fn new_game_for_board_size_5() {
    let state = GameState::new(5);
    assert_eq!(state.board.len(), 5);
    for row in &state.board {
        assert_eq!(row.len(), 5);
    }
    assert_eq!(state.position, at(0, 0));
    assert_eq!(state.win_position, at(4, 4));
    assert!(!state.victory);
    assert!(!state.failure);
    assert_eq!(state.time_remaining, 5);
    assert_eq!(state.board[0][0], SYMBOL);
    assert_eq!(state.board[4][4], GOAL);
    assert_eq!(count_of(&state, SYMBOL), 1);
    assert_eq!(count_of(&state, GOAL), 1);
}

#[test]
fn new_game_for_an_even_board_size() {
    let state = GameState::new(6);
    assert_eq!(state.board.len(), 7);
    assert_eq!(state.win_position, at(6, 6));
    assert_eq!(state.time_remaining, 7);
}

#[test]
fn new_game_on_the_smallest_board_shows_the_goal_only() {
    // One position: the goal glyph is placed last.
    let state = GameState::new(0);
    assert_eq!(state.board, vec![vec![GOAL]]);
    assert_eq!(state.position, at(0, 0));
    assert_eq!(state.win_position, at(0, 0));
    assert!(!state.victory);
    assert_eq!(state.time_remaining, 1);
}

#[test]
fn game_on_a_given_maze() {
    let state = fixed_game();
    assert_eq!(state.board, glyphs(&["P..#.", ".#.#.", ".#.#.", ".###.", "....G"]));
    assert_eq!(state.position, at(0, 0));
    assert_eq!(state.win_position, at(4, 4));
    assert!(!state.victory);
    assert!(!state.failure);
    assert_eq!(state.time_remaining, 5);
}

#[test]
fn game_on_a_maze_with_walls_towards_the_outside() {
    let state = GameState::with_maze(vec![vec![cell(true, true); 2]; 2]);
    assert_eq!(state.board, glyphs(&["P#.", "###", ".#G"]));
    assert_eq!(state.win_position, at(2, 2));
    assert_eq!(state.time_remaining, 3);

    let state = GameState::with_maze(vec![vec![cell(true, true)]]);
    assert_eq!(state.board, glyphs(&["G"]));
    assert_eq!(state.position, at(0, 0));
    assert_eq!(state.win_position, at(0, 0));
}

#[test]
fn well_formed_states_are_told_from_others() {
    let state = fixed_game();
    assert!(state.is_well_formed());
    assert!(GameState::new(0).is_well_formed());
    assert!(GameState::new(8).is_well_formed());

    let mut off_board = fixed_game();
    off_board.position = at(5, 0);
    assert!(!off_board.is_well_formed());
    off_board.position = at(0, 5);
    assert!(!off_board.is_well_formed());
    off_board.position = at(4, 4);
    assert!(off_board.is_well_formed());

    let mut ragged = fixed_game();
    ragged.board[3].pop();
    assert!(!ragged.is_well_formed());
    ragged.board[3].push(BLANK);
    assert!(ragged.is_well_formed());
    ragged.board.pop();
    assert!(!ragged.is_well_formed());

    let mut empty = fixed_game();
    empty.board.clear();
    assert!(!empty.is_well_formed());
}

#[test]
fn accepted_move_blanks_the_old_position_and_marks_the_new() {
    let mut state = fixed_game();
    state.move_position(Movement::RIGHT);
    assert_eq!(state.position, at(1, 0));
    assert_eq!(state.board, glyphs(&[".P.#.", ".#.#.", ".#.#.", ".###.", "....G"]));
    state.move_position(Movement::LEFT);
    assert_eq!(state.position, at(0, 0));
    state.move_position(Movement::DOWN);
    assert_eq!(state.position, at(0, 1));
    assert_eq!(state.board, glyphs(&["...#.", "P#.#.", ".#.#.", ".###.", "....G"]));
    state.move_position(Movement::UP);
    assert_eq!(state.position, at(0, 0));
    assert_eq!(state.board, glyphs(&["P..#.", ".#.#.", ".#.#.", ".###.", "....G"]));
    assert!(!state.victory);
    assert_eq!(state.time_remaining, 5);
}

#[test]
fn move_into_a_wall_changes_nothing() {
    let mut state = fixed_game();
    state.move_position(Movement::RIGHT);
    let before = parts(&state);
    // Below (1, 0) stands a wall.
    state.move_position(Movement::DOWN);
    assert_eq!(parts(&state), before);
    state.move_position(Movement::RIGHT);
    let before = parts(&state);
    // Right of (2, 0) stands a wall.
    state.move_position(Movement::RIGHT);
    assert_eq!(parts(&state), before);
}

#[test]
fn move_after_victory_changes_nothing() {
    let mut state = fixed_game();
    state.victory = true;
    let before = parts(&state);
    for action in [Movement::UP, Movement::DOWN, Movement::LEFT, Movement::RIGHT] {
        state.move_position(action);
        assert_eq!(parts(&state), before);
    }
}

#[test]
fn move_after_failure_changes_nothing() {
    let mut state = fixed_game();
    state.clock_event(Clock::SET(0));
    assert!(state.failure);
    let before = parts(&state);
    for action in [Movement::UP, Movement::DOWN, Movement::LEFT, Movement::RIGHT] {
        state.move_position(action);
        assert_eq!(parts(&state), before);
    }
}

#[test]
fn moves_stop_at_the_border() {
    let mut state = fixed_game();
    let before = parts(&state);
    state.move_position(Movement::UP);
    assert_eq!(parts(&state), before);
    state.move_position(Movement::LEFT);
    assert_eq!(parts(&state), before);

    // Down the first column and along the last row, to just before the goal.
    for _ in 0..4 {
        state.move_position(Movement::DOWN);
    }
    assert_eq!(state.position, at(0, 4));
    state.move_position(Movement::DOWN);
    assert_eq!(state.position, at(0, 4));
    state.move_position(Movement::LEFT);
    assert_eq!(state.position, at(0, 4));

    // Up the last column of another maze, to the top-right corner.
    let mut state = GameState::with_maze(vec![vec![cell(false, false); 2]; 2]);
    state.move_position(Movement::RIGHT);
    state.move_position(Movement::RIGHT);
    assert_eq!(state.position, at(2, 0));
    state.move_position(Movement::RIGHT);
    assert_eq!(state.position, at(2, 0));
    state.move_position(Movement::UP);
    assert_eq!(state.position, at(2, 0));
    assert_eq!(count_of(&state, SYMBOL), 1);
}

#[test]
fn reaching_the_goal_wins() {
    let mut state = fixed_game();
    for _ in 0..4 {
        state.move_position(Movement::DOWN);
    }
    for _ in 0..3 {
        state.move_position(Movement::RIGHT);
    }
    assert_eq!(state.position, at(3, 4));
    assert!(!state.victory);
    state.move_position(Movement::RIGHT);
    assert!(state.victory);
    assert!(!state.failure);
    assert_eq!(state.position, at(4, 4));
    assert_eq!(state.board[4][3], BLANK);
    assert_eq!(state.board[4][4], SYMBOL);
    assert_eq!(state.board, glyphs(&["...#.", ".#.#.", ".#.#.", ".###.", "....P"]));
}

#[test]
fn clock_adds_subtracts_and_sets() {
    let mut state = fixed_game();
    state.clock_event(Clock::ADD(10));
    assert_eq!(state.time_remaining, 15);
    state.clock_event(Clock::SUB(4));
    assert_eq!(state.time_remaining, 11);
    state.clock_event(Clock::SET(7));
    assert_eq!(state.time_remaining, 7);
    state.clock_event(Clock::SUB(1));
    assert_eq!(state.time_remaining, 6);
    assert!(!state.failure);
    assert!(!state.victory);
    assert_eq!(state.position, at(0, 0));
}

#[test]
fn subtracting_more_than_remains_stops_at_zero_and_loses() {
    let mut state = fixed_game();
    let more = state.time_remaining + 5;
    state.clock_event(Clock::SUB(more));
    assert_eq!(state.time_remaining, 0);
    assert!(state.failure);
    assert!(!state.victory);
}

#[test]
fn subtracting_exactly_what_remains_loses() {
    let mut state = fixed_game();
    state.clock_event(Clock::SUB(5));
    assert_eq!(state.time_remaining, 0);
    assert!(state.failure);
}

#[test]
fn adding_stops_at_the_largest_value() {
    let mut state = fixed_game();
    state.clock_event(Clock::SET(u32::MAX - 1));
    state.clock_event(Clock::ADD(5));
    assert_eq!(state.time_remaining, u32::MAX);
    state.clock_event(Clock::ADD(u32::MAX));
    assert_eq!(state.time_remaining, u32::MAX);
    assert!(!state.failure);
}

#[test]
fn failure_stays_when_time_is_added_again() {
    let mut state = fixed_game();
    state.clock_event(Clock::SET(0));
    assert!(state.failure);
    state.clock_event(Clock::ADD(30));
    assert_eq!(state.time_remaining, 30);
    assert!(state.failure);
    assert!(!state.victory);
}

#[test]
fn clock_at_zero_does_not_lose_a_won_game() {
    let mut state = fixed_game();
    state.victory = true;
    state.clock_event(Clock::SUB(100));
    assert_eq!(state.time_remaining, 0);
    assert!(state.victory);
    assert!(!state.failure);
    state.clock_event(Clock::SET(0));
    assert!(!state.failure);
    state.clock_event(Clock::ADD(0));
    assert!(!state.failure);
}

#[test]
fn valid_move_needs_a_running_game_and_no_wall() {
    let mut state = fixed_game();
    assert!(state.is_valid_move(&at(1, 0)));
    assert!(state.is_valid_move(&at(4, 4)));
    assert!(!state.is_valid_move(&at(1, 1)));
    assert!(!state.is_valid_move(&at(3, 0)));
    state.failure = true;
    assert!(!state.is_valid_move(&at(1, 0)));
    state.failure = false;
    state.victory = true;
    assert!(!state.is_valid_move(&at(1, 0)));
}

#[test]
fn win_position_is_told_by_the_coordinates() {
    let mut state = fixed_game();
    assert!(!state.is_win_position());
    state.position = at(4, 4);
    assert!(state.is_win_position());
    state.position = at(4, 3);
    assert!(!state.is_win_position());
}

#[test]
fn listen_applies_the_event_and_returns_a_snapshot() {
    let mut state = fixed_game();
    let snapshot = state.listen(StateEvent::Movement(Movement::RIGHT));
    assert_eq!(state.position, at(1, 0));
    assert_eq!(parts(&snapshot), parts(&state));

    let snapshot = state.listen(StateEvent::Clock(Clock::SUB(1)));
    assert_eq!(state.time_remaining, 4);
    assert_eq!(parts(&snapshot), parts(&state));

    // A rejected move still yields a snapshot.
    let before = parts(&state);
    let snapshot = state.listen(StateEvent::Movement(Movement::DOWN));
    assert_eq!(parts(&state), before);
    assert_eq!(parts(&snapshot), before);
}

#[test]
fn snapshot_is_a_copy_of_its_own() {
    let mut state = fixed_game();
    let snapshot = state.listen(StateEvent::Clock(Clock::ADD(1)));
    let kept = parts(&snapshot);
    state.listen(StateEvent::Movement(Movement::RIGHT));
    state.listen(StateEvent::Clock(Clock::SET(0)));
    assert_eq!(parts(&snapshot), kept);
    assert_eq!(snapshot.board[0][0], SYMBOL);
    assert_eq!(state.board[0][0], BLANK);

    let copy = state.clone();
    assert_eq!(parts(&copy), parts(&state));
}

#[test]
fn events_after_the_end_still_yield_snapshots() {
    let mut state = fixed_game();
    state.listen(StateEvent::Clock(Clock::SET(0)));
    let lost = parts(&state);
    for event in [
        StateEvent::Movement(Movement::RIGHT),
        StateEvent::Movement(Movement::DOWN),
        StateEvent::Clock(Clock::SUB(1)),
    ] {
        let snapshot = state.listen(event);
        assert_eq!(parts(&snapshot), lost);
    }
}

#[test]
fn the_order_of_events_decides_between_winning_and_losing() {
    // One step before the goal with one tick left.
    let mut state = fixed_game();
    for _ in 0..4 {
        state.move_position(Movement::DOWN);
    }
    for _ in 0..3 {
        state.move_position(Movement::RIGHT);
    }
    state.clock_event(Clock::SET(1));
    let mut other = state.clone();

    state.listen(StateEvent::Movement(Movement::RIGHT));
    state.listen(StateEvent::Clock(Clock::SUB(1)));
    assert!(state.victory);
    assert!(!state.failure);
    assert_eq!(state.time_remaining, 0);

    other.listen(StateEvent::Clock(Clock::SUB(1)));
    other.listen(StateEvent::Movement(Movement::RIGHT));
    assert!(other.failure);
    assert!(!other.victory);
    assert_eq!(other.position, at(3, 4));
}

#[test]
fn walk_to_the_goal_on_a_given_maze() {
    let mut state = fixed_game();
    let way = way_to_goal(&state);
    assert_eq!(way.len(), 8);
    for (i, action) in way.iter().enumerate() {
        assert!(!state.victory);
        state.move_position(*action);
        assert_eq!(count_of(&state, SYMBOL), 1);
        assert_eq!(state.board[state.position.y][state.position.x], SYMBOL);
        assert_eq!(count_of(&state, GOAL), if i + 1 < way.len() { 1 } else { 0 });
    }
    assert!(state.victory);
    assert_eq!(state.position, at(4, 4));
}

#[test]
fn walk_to_the_goal_on_carved_mazes() {
    for board_size in [5usize, 5, 5, 6, 9, 12, 25] {
        let mut state = GameState::new(board_size);
        let side = state.board.len();
        assert_eq!(state.win_position, at(side - 1, side - 1));
        let way = way_to_goal(&state);
        for action in way {
            assert!(!state.victory);
            let before = state.position;
            state.move_position(action);
            assert_ne!(state.position, before);
            assert_eq!(count_of(&state, SYMBOL), 1);
            assert_eq!(state.board[state.position.y][state.position.x], SYMBOL);
        }
        assert!(state.victory);
        assert!(!state.failure);
        assert_eq!(state.position, state.win_position);
    }
}
