use maze_game::carver::Carver;
use maze_game::cell::{BoardCell, Position};
use maze_game::generate::generate_maze;

fn cell(wall_right: bool, wall_bottom: bool) -> BoardCell {
    BoardCell { wall_right, wall_bottom }
}

fn at(x: usize, y: usize) -> Position {
    Position { x, y }
}

/// Drives a carving to its end, always entering the first candidate
/// (`last == false`) or the last one, and counts the steps.
fn carve(board_size: usize, last: bool) -> (Vec<Vec<BoardCell>>, usize) {
    let mut carver = Carver::new(board_size);
    let mut steps = 0;
    while carver.active() {
        let moves = carver.candidates();
        let pick = if last && !moves.is_empty() { moves.len() - 1 } else { 0 };
        carver.step(pick);
        steps += 1;
        assert!(steps <= 10_000, "carving does not stop");
    }
    (carver.into_cells(), steps)
}

/// The cells that can be reached from the centre through open passages.
fn reached_from_centre(cells: &Vec<Vec<BoardCell>>) -> usize {
    let side = cells.len();
    let mut seen = vec![vec![false; side]; side];
    let mut todo = vec![(side / 2, side / 2)];
    seen[side / 2][side / 2] = true;
    let mut count = 0;
    while let Some((x, y)) = todo.pop() {
        count += 1;
        let mut next = Vec::new();
        if y > 0 && !cells[y - 1][x].wall_bottom {
            next.push((x, y - 1));
        }
        if x > 0 && !cells[y][x - 1].wall_right {
            next.push((x - 1, y));
        }
        if y + 1 < side && !cells[y][x].wall_bottom {
            next.push((x, y + 1));
        }
        if x + 1 < side && !cells[y][x].wall_right {
            next.push((x + 1, y));
        }
        for (nx, ny) in next {
            if !seen[ny][nx] {
                seen[ny][nx] = true;
                todo.push((nx, ny));
            }
        }
    }
    count
}

/// The open passages between neighbouring cells.
fn passages(cells: &Vec<Vec<BoardCell>>) -> usize {
    let side = cells.len();
    let mut count = 0;
    for y in 0..side {
        for x in 0..side {
            if x + 1 < side && !cells[y][x].wall_right {
                count += 1;
            }
            if y + 1 < side && !cells[y][x].wall_bottom {
                count += 1;
            }
        }
    }
    count
}

#[test]
fn carver_starts_at_the_centre_with_four_candidates() {
    let carver = Carver::new(5);
    assert!(carver.active());
    assert_eq!(carver.candidates(), vec![at(1, 0), at(0, 1), at(1, 2), at(2, 1)]);
}

#[test]
fn carver_start_in_a_grid_of_side_two() {
    // The centre of a grid of side two is its bottom-right cell.
    let carver = Carver::new(2);
    assert_eq!(carver.candidates(), vec![at(1, 0), at(0, 1)]);
}

#[test]
fn carver_first_step_enters_the_pick() {
    let mut carver = Carver::new(5);
    carver.step(2);
    // Now at (1, 2): the cell above is the visited centre.
    assert_eq!(carver.candidates(), vec![at(0, 2), at(2, 2)]);
}

#[test]
fn carving_with_first_candidate_for_board_size_5() {
    let (cells, steps) = carve(5, false);
    assert_eq!(steps, 17);
    assert_eq!(
        cells,
        vec![
            vec![cell(false, false), cell(true, false), cell(false, false)],
            vec![cell(true, false), cell(true, true), cell(false, false)],
            vec![cell(false, false), cell(false, false), cell(false, false)],
        ]
    );
}

#[test]
fn carving_with_last_candidate_for_board_size_5() {
    let (cells, steps) = carve(5, true);
    assert_eq!(steps, 17);
    assert_eq!(
        cells,
        vec![
            vec![cell(false, false), cell(false, true), cell(false, true)],
            vec![cell(true, false), cell(false, true), cell(false, false)],
            vec![cell(false, false), cell(false, false), cell(false, false)],
        ]
    );
}

#[test]
fn carving_for_board_size_2_stops_at_the_visit_limit() {
    // Four cells, limit four: carving stops after the fourth visit,
    // before it backtracks.
    let (cells, steps) = carve(2, false);
    assert_eq!(steps, 4);
    assert_eq!(
        cells,
        vec![
            vec![cell(false, false), cell(false, false)],
            vec![cell(true, false), cell(false, false)],
        ]
    );
    let (cells, steps) = carve(2, true);
    assert_eq!(steps, 4);
    assert_eq!(
        cells,
        vec![
            vec![cell(false, false), cell(false, true)],
            vec![cell(false, false), cell(false, false)],
        ]
    );
}

#[test]
fn carving_for_board_size_0_takes_no_step() {
    let carver = Carver::new(0);
    assert!(!carver.active());
    assert_eq!(carver.into_cells(), vec![vec![cell(false, false)]]);
}

#[test]
fn carving_for_board_size_1_takes_one_step() {
    let (cells, steps) = carve(1, false);
    assert_eq!(steps, 1);
    assert_eq!(cells, vec![vec![cell(false, false)]]);
}

#[test]
fn generated_maze_has_side_half_the_board_size_plus_one() {
    for (board_size, side) in [(0, 1), (1, 1), (2, 2), (3, 2), (4, 3), (5, 3), (6, 4), (21, 11)] {
        let cells = generate_maze(board_size);
        assert_eq!(cells.len(), side);
        for row in &cells {
            assert_eq!(row.len(), side);
        }
    }
}

#[test]
fn generated_maze_is_fully_connected() {
    for board_size in [0, 1, 2, 3, 5, 8, 13, 30] {
        for _ in 0..20 {
            let cells = generate_maze(board_size);
            let side = cells.len();
            assert_eq!(reached_from_centre(&cells), side * side);
        }
    }
}

#[test]
fn generated_maze_opens_one_passage_per_cell_entered() {
    // Every cell but the first is entered once, through one passage;
    // all other neighbours are walled off.
    for board_size in [2, 3, 5, 8, 13, 30] {
        for _ in 0..20 {
            let cells = generate_maze(board_size);
            let side = cells.len();
            assert_eq!(passages(&cells), side * side - 1);
        }
    }
}

#[test]
fn generated_maze_has_no_walls_on_the_outer_border() {
    for board_size in [2, 5, 9, 16] {
        for _ in 0..20 {
            let cells = generate_maze(board_size);
            let side = cells.len();
            for i in 0..side {
                assert!(!cells[i][side - 1].wall_right);
                assert!(!cells[side - 1][i].wall_bottom);
            }
        }
    }
}

#[test]
fn generated_mazes_differ() {
    // Sixty-four cells leave far too many mazes for fifty draws to agree.
    let first = generate_maze(14);
    let mut differs = false;
    for _ in 0..50 {
        if generate_maze(14) != first {
            differs = true;
        }
    }
    assert!(differs);
}
