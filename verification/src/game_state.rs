//! The game: a player on a board, a goal, and a countdown.
//!
//! The state changes only through events. A movement tries to move the
//! player one position; a clock event adjusts the remaining time. The
//! game is won when the player reaches the goal and lost when the time
//! runs out first; after either, nothing moves any more.

use vstd::prelude::*;
use crate::board::{convert_generated_maze, render_side, rendered, BLANK, GOAL, SYMBOL, WALL};
use crate::cell::{at, in_grid, is_square, placed, rows, set_at, BoardCell, Position};
use crate::carving::can_carve;
use crate::generate::generate_maze;
use crate::maze::{gen_size, is_maze, is_sparse};
use crate::route::{can_be_won, law_every_game_can_be_won};

verus! {

/// An input to the state machine.
#[derive(Debug, Clone, Copy, PartialEq, Eq, Structural)]
pub enum StateEvent {
    Movement(Movement),
    Clock(Clock),
}

/// An adjustment of the remaining time.
#[derive(Debug, Clone, Copy, PartialEq, Eq, Structural)]
pub enum Clock {
    /// Adds to the remaining time, stopping at the largest value.
    ADD(u32),
    /// Takes from the remaining time, stopping at zero.
    SUB(u32),
    /// Sets the remaining time.
    SET(u32),
}

/// A direction in which the player tries to move.
#[derive(Debug, Clone, Copy, PartialEq, Eq, Structural)]
pub enum Movement {
    UP,
    DOWN,
    LEFT,
    RIGHT,
}

/// The live game.
#[derive(Debug)]
pub struct GameState {
    pub board: Vec<Vec<char>>,
    pub position: Position,
    pub win_position: Position,
    pub victory: bool,
    pub failure: bool,
    pub time_remaining: u32,
}

/// The game as a mathematical value.
pub struct GameView {
    pub board: Seq<Seq<char>>,
    pub position: Position,
    pub win_position: Position,
    pub victory: bool,
    pub failure: bool,
    pub time_remaining: u32,
}

impl GameView {
    /// The board is square and not empty, and the player stands on it.
    pub open spec fn wf(self) -> bool {
        &&& self.board.len() >= 1
        &&& is_square(self.board, self.board.len())
        &&& in_grid(self.position, self.board.len())
    }

    /// The game is over.
    pub open spec fn terminal(self) -> bool {
        self.victory || self.failure
    }

    /// Where a movement leads: one position in its direction, or nowhere
    /// at the border of the board.
    pub open spec fn destination(self, action: Movement) -> Position {
        let p = self.position;
        match action {
            Movement::UP => if p.y > 0 {
                Position { x: p.x, y: (p.y - 1) as usize }
            } else {
                p
            },
            Movement::DOWN => if p.y + 1 < self.board.len() {
                Position { x: p.x, y: (p.y + 1) as usize }
            } else {
                p
            },
            Movement::LEFT => if p.x > 0 {
                Position { x: (p.x - 1) as usize, y: p.y }
            } else {
                p
            },
            Movement::RIGHT => if p.x + 1 < self.board.len() {
                Position { x: (p.x + 1) as usize, y: p.y }
            } else {
                p
            },
        }
    }

    /// A move to `to` is accepted while the game is running and `to`
    /// does not show a wall.
    pub open spec fn accepts(self, to: Position) -> bool {
        !self.victory && !self.failure && at(self.board, to) != WALL
    }

    /// The game after a movement. An accepted move blanks the position
    /// left, marks the position entered, and wins the game if that is
    /// the goal. A rejected move changes nothing.
    pub open spec fn moved(self, action: Movement) -> GameView {
        let to = self.destination(action);
        if self.accepts(to) {
            GameView {
                board: placed(placed(self.board, self.position, BLANK), to, SYMBOL),
                position: to,
                victory: self.victory || to == self.win_position,
                ..self
            }
        } else {
            self
        }
    }

    /// The remaining time after a clock event.
    pub open spec fn adjusted(self, ev: Clock) -> u32 {
        match ev {
            Clock::ADD(v) => if self.time_remaining + v > u32::MAX {
                u32::MAX
            } else {
                (self.time_remaining + v) as u32
            },
            Clock::SUB(v) => if self.time_remaining < v {
                0
            } else {
                (self.time_remaining - v) as u32
            },
            Clock::SET(v) => v,
        }
    }

    /// The game after a clock event. Reaching zero loses the game,
    /// unless it has been won.
    pub open spec fn ticked(self, ev: Clock) -> GameView {
        GameView {
            time_remaining: self.adjusted(ev),
            failure: self.failure || (self.adjusted(ev) == 0 && !self.victory),
            ..self
        }
    }

    /// The game after a sequence of movements, first to last.
    pub open spec fn after_moves(self, moves: Seq<Movement>) -> GameView
        decreases moves.len(),
    {
        if moves.len() == 0 {
            self
        } else {
            self.moved(moves[0]).after_moves(moves.drop_first())
        }
    }

    /// The game after an event.
    pub open spec fn applied(self, ev: StateEvent) -> GameView {
        match ev {
            StateEvent::Movement(action) => self.moved(action),
            StateEvent::Clock(clock) => self.ticked(clock),
        }
    }

    /// The game at its start on the board drawn from `cells`: the player
    /// in the top-left corner, the goal in the bottom-right one, and as
    /// many ticks on the clock as the board has rows (the low 32 bits of
    /// that number).
    pub open spec fn initial(cells: Seq<Seq<BoardCell>>) -> GameView {
        let side = render_side(cells.len());
        let origin = Position { x: 0, y: 0 };
        let goal = Position { x: (side - 1) as usize, y: (side - 1) as usize };
        GameView {
            board: placed(placed(rendered(cells), origin, SYMBOL), goal, GOAL),
            position: origin,
            win_position: goal,
            victory: false,
            failure: false,
            time_remaining: side as u32,
        }
    }
}

impl View for GameState {
    type V = GameView;

    open spec fn view(&self) -> GameView {
        GameView {
            board: rows(self.board),
            position: self.position,
            win_position: self.win_position,
            victory: self.victory,
            failure: self.failure,
            time_remaining: self.time_remaining,
        }
    }
}

impl Clone for GameState {
    /// A deep copy: the snapshot that is handed to consumers.
    fn clone(&self) -> (copy: Self)
        ensures
            copy@ == self@,
    {
        let mut board: Vec<Vec<char>> = Vec::new();
        let mut y: usize = 0;
        while y < self.board.len()
            invariant
                y <= self.board.len(),
                board.len() == y,
                forall|j: int| 0 <= j < y ==> (#[trigger] board[j])@ == self.board[j]@,
            decreases self.board.len() - y,
        {
            let mut row: Vec<char> = Vec::new();
            let mut x: usize = 0;
            while x < self.board[y].len()
                invariant
                    y < self.board.len(),
                    x <= self.board[y as int].len(),
                    row.len() == x,
                    forall|i: int| 0 <= i < x ==> row[i] == self.board[y as int][i],
                decreases self.board[y as int].len() - x,
            {
                row.push(self.board[y][x]);
                x += 1;
            }
            assert(row@ =~= self.board[y as int]@);
            board.push(row);
            y += 1;
        }
        assert(rows(board) =~= rows(self.board));
        GameState {
            board,
            position: self.position,
            win_position: self.win_position,
            victory: self.victory,
            failure: self.failure,
            time_remaining: self.time_remaining,
        }
    }
}

impl GameState {
    /// The board is square and not empty, and the player stands on it.
    pub open spec fn wf(&self) -> bool {
        self@.wf()
    }

    /// Whether the board is square and not empty and the player stands
    /// on it: what the state machine asks of a state before an event.
    pub fn is_well_formed(&self) -> (ok: bool)
        ensures
            ok == self.wf(),
    {
        let side = self.board.len();
        if side == 0 || self.position.x >= side || self.position.y >= side {
            return false;
        }
        let mut y: usize = 0;
        while y < side
            invariant
                y <= side,
                side == self.board.len(),
                forall|j: int| 0 <= j < y ==> (#[trigger] rows(self.board)[j]).len() == side,
            decreases side - y,
        {
            assert(rows(self.board)[y as int] == self.board[y as int]@);
            if self.board[y].len() != side {
                return false;
            }
            y += 1;
        }
        true
    }

    /// Starts a game on a freshly carved maze.
    ///
    /// The maze is random; whatever it is, the game starts as `initial`
    /// says for it, and it can be won.
    pub fn new(board_size: usize) -> (state: GameState)
        ensures
            state.wf(),
            state@.board.len() == 2 * (board_size / 2 + 1) - 1,
            can_be_won(state@),
            exists|cells: Seq<Seq<BoardCell>>|
                #[trigger] can_carve(board_size as nat, cells) && is_maze(
                    cells,
                    gen_size(board_size as nat),
                ) && is_sparse(cells) && state@ == GameView::initial(cells),
    {
        let cells = generate_maze(board_size);
        proof {
            law_every_game_can_be_won(rows(cells));
        }
        GameState::with_maze(cells)
    }

    /// Starts a game on the board drawn from the given maze.
    pub fn with_maze(cells: Vec<Vec<BoardCell>>) -> (state: GameState)
        requires
            cells.len() >= 1,
            is_square(rows(cells), cells.len() as nat),
            2 * cells.len() - 1 <= usize::MAX,
        ensures
            state.wf(),
            state@ == GameView::initial(rows(cells)),
    {
        let board = convert_generated_maze(cells);
        let board_size = board.len();
        assert(rows(board).len() == board_size);
        let mut state = GameState {
            board,
            position: Position { x: 0, y: 0 },
            win_position: Position { x: board_size - 1, y: board_size - 1 },
            victory: false,
            failure: false,
            time_remaining: #[verifier::truncate]
            (board_size as u32),
        };
        set_at(&mut state.board, state.position, SYMBOL);
        set_at(&mut state.board, state.win_position, GOAL);
        state
    }

    /// Tries to move the player one position in the given direction.
    pub fn move_position(&mut self, action: Movement)
        requires
            old(self).wf(),
        ensures
            final(self).wf(),
            final(self)@ == old(self)@.moved(action),
    {
        let mut new_pos = Position { y: self.position.y, x: self.position.x };

        match action {
            Movement::UP => {
                if let Some(y) = self.position.y.checked_sub(1) {
                    new_pos.y = y;
                }
            },
            Movement::DOWN => {
                if self.position.y < self.board.len() - 1 {
                    new_pos.y = self.position.y + 1;
                }
            },
            Movement::LEFT => {
                if let Some(x) = self.position.x.checked_sub(1) {
                    new_pos.x = x;
                }
            },
            Movement::RIGHT => {
                if self.position.x < self.board.len() - 1 {
                    new_pos.x = self.position.x + 1;
                }
            },
        }

        if self.is_valid_move(&new_pos) {
            set_at(&mut self.board, self.position, BLANK);
            set_at(&mut self.board, new_pos, SYMBOL);
            self.position = new_pos;

            if self.is_win_position() {
                self.victory = true;
            }
        }
    }

    /// Adjusts the remaining time; at zero the game is lost, unless it
    /// has been won.
    pub fn clock_event(&mut self, ev: Clock)
        ensures
            final(self)@ == old(self)@.ticked(ev),
    {
        match ev {
            Clock::ADD(v) => {
                self.time_remaining = self.time_remaining.saturating_add(v);
            },
            Clock::SUB(v) => {
                self.time_remaining = self.time_remaining.saturating_sub(v);
            },
            Clock::SET(v) => {
                self.time_remaining = v;
            },
        }

        if self.time_remaining == 0 && !self.victory {
            self.failure = true;
        }
    }

    /// Whether a move to `new_position` is accepted.
    pub fn is_valid_move(&self, new_position: &Position) -> (valid: bool)
        requires
            new_position.y < self@.board.len(),
            new_position.x < self@.board[new_position.y as int].len(),
        ensures
            valid == self@.accepts(*new_position),
    {
        assert(rows(self.board)[new_position.y as int] == self.board[new_position.y as int]@);
        !self.victory && !self.failure && self.board[new_position.y][new_position.x] != WALL
    }

    /// Whether the player stands on the goal.
    pub fn is_win_position(&self) -> (won: bool)
        ensures
            won == (self.position == self.win_position),
    {
        self.position == self.win_position
    }

    /// Handles one event of the stream and returns the snapshot to
    /// publish after it. A snapshot is due after every event, also
    /// after one that changed nothing.
    pub fn listen(&mut self, ev: StateEvent) -> (snapshot: GameState)
        requires
            old(self).wf(),
        ensures
            final(self).wf(),
            final(self)@ == old(self)@.applied(ev),
            snapshot@ == final(self)@,
    {
        match ev {
            StateEvent::Movement(ev) => self.move_position(ev),
            StateEvent::Clock(ev) => self.clock_event(ev),
        }
        self.clone()
    }
}

} // verus!
