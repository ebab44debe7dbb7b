use rustoku::Sudoku;
use std::collections::BTreeSet;
use std::collections::VecDeque;

#[test]
fn new_grid_is_nine_by_nine_and_empty() {
    let game = Sudoku::new();
    assert_eq!(game.size(), 9);
    assert_eq!(game.get_board(), vec![0usize; 81]);
}

#[test]
fn from_keeps_the_cells_of_a_square_input() {
    let cells: Vec<usize> = vec![1, 0, 0, 2, 0, 0, 0, 0, 0, 0, 0, 0, 3, 0, 0, 4];
    let game = Sudoku::from(cells.clone());
    assert_eq!(game.size(), 4);
    assert_eq!(game.get_board(), cells);
}

#[test]
fn from_keeps_the_cells_of_the_standard_puzzle() {
    let cells: Vec<usize> = vec![
        4, 2, 0, 0, 5, 0, 0, 0, 8, 8, 0, 3, 0, 0, 0, 0, 0, 0, 0, 1, 0, 0, 0, 9, 0, 0, 0, 0, 7, 0,
        0, 8, 0, 6, 0, 0, 0, 0, 0, 5, 2, 6, 0, 0, 0, 0, 0, 5, 0, 3, 0, 0, 9, 0, 0, 0, 0, 2, 0, 0,
        0, 7, 0, 0, 0, 0, 0, 0, 0, 5, 0, 3, 9, 0, 0, 0, 4, 0, 0, 2, 6,
    ];
    let game = Sudoku::from(cells.clone());
    assert_eq!(game.size(), 9);
    assert_eq!(game.get_board(), cells);
}

#[test]
fn from_keeps_trailing_cells_of_an_input_that_is_no_square() {
    let cells: Vec<usize> = vec![0, 0, 0, 0, 0, 0, 0, 0, 0, 7];
    let game = Sudoku::from(cells.clone());
    assert_eq!(game.size(), 3);
    assert_eq!(game.get_board(), cells);
}

#[test]
fn from_an_empty_input_has_side_zero() {
    let game = Sudoku::from(Vec::new());
    assert_eq!(game.size(), 0);
    assert_eq!(game.get_board(), Vec::<usize>::new());
}

#[test]
fn side_is_the_root_of_the_cell_count_rounded_down() {
    let expected: [(usize, usize); 14] = [
        (0, 0),
        (1, 1),
        (2, 1),
        (3, 1),
        (4, 2),
        (8, 2),
        (9, 3),
        (15, 3),
        (16, 4),
        (24, 4),
        (25, 5),
        (80, 8),
        (81, 9),
        (82, 9),
    ];
    for (count, side) in expected {
        let game = Sudoku::from(vec![0usize; count]);
        assert_eq!(game.size(), side, "{} cells", count);
    }
}

#[test]
fn set_board_replaces_cells_and_side() {
    let mut game = Sudoku::new();
    let cells: Vec<usize> = vec![1, 2, 3, 4, 3, 4, 1, 2, 0, 0, 0, 0, 0, 0, 0, 0];
    game.set_board(cells.clone());
    assert_eq!(game.size(), 4);
    assert_eq!(game.get_board(), cells);
    game.set_board(vec![0usize; 256]);
    assert_eq!(game.size(), 16);
    assert_eq!(game.get_board(), vec![0usize; 256]);
}

#[test]
fn get_board_does_not_change_the_grid() {
    let cells: Vec<usize> = vec![0, 3, 0, 0, 0, 0, 2, 0, 0, 0, 0, 0, 0, 0, 0, 1];
    let game = Sudoku::from(cells.clone());
    assert_eq!(game.get_board(), cells);
    assert_eq!(game.get_board(), cells);
}

#[test]
fn get_board_as_collects_in_row_order() {
    let cells: Vec<usize> = vec![1, 0, 0, 2, 0, 0, 0, 0, 0, 0, 0, 0, 3, 0, 0, 4];
    let game = Sudoku::from(cells.clone());
    let as_vec: Vec<usize> = game.get_board_as();
    assert_eq!(as_vec, cells);
    let as_deque: VecDeque<usize> = game.get_board_as();
    assert_eq!(as_deque, VecDeque::from(cells.clone()));
    let as_set: BTreeSet<usize> = game.get_board_as();
    assert_eq!(as_set.into_iter().collect::<Vec<usize>>(), vec![0, 1, 2, 3, 4]);
}
