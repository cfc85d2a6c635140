use maze_game::cell::{set_at, square_of, BoardCell, Position};

#[test]
fn square_of_fills_every_entry() {
    assert_eq!(square_of(3, 'x'), vec![vec!['x'; 3]; 3]);
    assert_eq!(square_of(1, false), vec![vec![false]]);
    let cell = BoardCell { wall_right: true, wall_bottom: false };
    assert_eq!(square_of(2, cell), vec![vec![cell; 2]; 2]);
}

#[test]
fn square_of_side_zero_is_empty() {
    assert_eq!(square_of(0, 7u8), Vec::<Vec<u8>>::new());
}

#[test]
fn set_at_changes_one_entry() {
    let mut grid = square_of(3, 0u8);
    set_at(&mut grid, Position { x: 2, y: 1 }, 9);
    assert_eq!(grid, vec![vec![0, 0, 0], vec![0, 0, 9], vec![0, 0, 0]]);
    set_at(&mut grid, Position { x: 0, y: 0 }, 4);
    set_at(&mut grid, Position { x: 2, y: 1 }, 5);
    assert_eq!(grid, vec![vec![4, 0, 0], vec![0, 0, 5], vec![0, 0, 0]]);
}

#[test]
fn positions_compare_by_value() {
    let a = Position { x: 1, y: 2 };
    let b = Position { x: 1, y: 2 };
    assert_eq!(a, b);
    assert_ne!(a, Position { x: 2, y: 1 });
    let mut seen = std::collections::HashSet::new();
    seen.insert(a);
    assert!(seen.contains(&b));
    assert!(!seen.contains(&Position { x: 2, y: 1 }));
}
