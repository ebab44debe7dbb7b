use rustoku::Sudoku;

fn puzzle() -> Vec<usize> {
    vec![
        4, 2, 0, 0, 5, 0, 0, 0, 8, 8, 0, 3, 0, 0, 0, 0, 0, 0, 0, 1, 0, 0, 0, 9, 0, 0, 0, 0, 7, 0,
        0, 8, 0, 6, 0, 0, 0, 0, 0, 5, 2, 6, 0, 0, 0, 0, 0, 5, 0, 3, 0, 0, 9, 0, 0, 0, 0, 2, 0, 0,
        0, 7, 0, 0, 0, 0, 0, 0, 0, 5, 0, 3, 9, 0, 0, 0, 4, 0, 0, 2, 6,
    ]
}

fn puzzle_solved() -> Vec<usize> {
    vec![
        4, 2, 7, 1, 5, 3, 9, 6, 8, 8, 9, 3, 4, 6, 2, 1, 5, 7, 5, 1, 6, 8, 7, 9, 3, 4, 2, 2, 7, 4,
        9, 8, 1, 6, 3, 5, 1, 3, 9, 5, 2, 6, 7, 8, 4, 6, 8, 5, 7, 3, 4, 2, 9, 1, 3, 6, 8, 2, 1, 5,
        4, 7, 9, 7, 4, 2, 6, 9, 8, 5, 1, 3, 9, 5, 1, 3, 4, 7, 8, 2, 6,
    ]
}

/// Every value of `1..=side` occurs once among the cells at `indices`.
fn is_permutation(cells: &[usize], side: usize, indices: Vec<usize>) -> bool {
    let mut seen = vec![false; side + 1];
    for i in indices {
        let v = cells[i];
        if v == 0 || v > side || seen[v] {
            return false;
        }
        seen[v] = true;
    }
    seen[1..].iter().all(|s| *s)
}

/// Every row, column and box of the grid is a permutation of `1..=side`.
fn is_solved(cells: &[usize], side: usize, edge: usize) -> bool {
    if cells.len() != side * side || edge * edge != side {
        return false;
    }
    (0..side).all(|u| {
        let row = (0..side).map(|i| u * side + i).collect();
        let col = (0..side).map(|i| i * side + u).collect();
        let in_box = (0..side)
            .map(|i| ((u / edge) * edge + i / edge) * side + (u % edge) * edge + i % edge)
            .collect();
        is_permutation(cells, side, row)
            && is_permutation(cells, side, col)
            && is_permutation(cells, side, in_box)
    })
}

fn keeps_clues(before: &[usize], after: &[usize]) -> bool {
    before.len() == after.len()
        && (0..before.len()).all(|i| before[i] == 0 || after[i] == before[i])
}

#[test]
fn solves_the_standard_puzzle() {
    let mut game = Sudoku::from(puzzle());
    assert!(game.solve());
    let board = game.get_board();
    assert!(is_solved(&board, 9, 3));
    assert!(keeps_clues(&puzzle(), &board));
    assert_eq!(board, puzzle_solved());
    assert_eq!(game.size(), 9);
}

#[test]
fn solves_the_empty_standard_grid() {
    let mut game = Sudoku::new();
    assert!(game.solve());
    let board = game.get_board();
    assert!(is_solved(&board, 9, 3));
    assert_eq!(
        board,
        vec![
            1, 2, 3, 4, 5, 6, 7, 8, 9, 4, 5, 6, 7, 8, 9, 1, 2, 3, 7, 8, 9, 1, 2, 3, 4, 5, 6, 2, 1,
            4, 3, 6, 5, 8, 9, 7, 3, 6, 5, 8, 9, 7, 2, 1, 4, 8, 9, 7, 2, 1, 4, 3, 6, 5, 5, 3, 1, 6,
            4, 2, 9, 7, 8, 6, 4, 2, 9, 7, 8, 5, 3, 1, 9, 7, 8, 5, 3, 1, 6, 4, 2,
        ]
    );
}

#[test]
fn solving_twice_gives_the_same_board() {
    let mut first = Sudoku::from(puzzle());
    let mut second = Sudoku::from(puzzle());
    assert_eq!(first.solve(), second.solve());
    assert_eq!(first.get_board(), second.get_board());
    let mut empty_first = Sudoku::new();
    let mut empty_second = Sudoku::new();
    assert_eq!(empty_first.solve(), empty_second.solve());
    assert_eq!(empty_first.get_board(), empty_second.get_board());
}

#[test]
fn solving_a_solved_grid_changes_nothing() {
    let mut game = Sudoku::from(puzzle_solved());
    assert!(game.solve());
    assert_eq!(game.get_board(), puzzle_solved());
    assert!(game.solve());
    assert_eq!(game.get_board(), puzzle_solved());
}

#[test]
fn solving_keeps_every_clue() {
    let before: Vec<usize> = vec![1, 0, 0, 2, 0, 0, 0, 0, 0, 0, 0, 0, 3, 0, 0, 4];
    let mut game = Sudoku::from(before.clone());
    assert!(game.solve());
    let after = game.get_board();
    assert!(keeps_clues(&before, &after));
    assert!(is_solved(&after, 4, 2));
    assert_eq!(after, vec![1, 3, 4, 2, 2, 4, 1, 3, 4, 2, 3, 1, 3, 1, 2, 4]);
}

#[test]
fn finds_the_first_of_several_solutions() {
    let mut game = Sudoku::from(vec![1, 2, 3, 4, 3, 4, 1, 2, 0, 0, 0, 0, 0, 0, 0, 0]);
    assert!(game.solve());
    assert_eq!(game.get_board(), vec![1, 2, 3, 4, 3, 4, 1, 2, 2, 1, 4, 3, 4, 3, 2, 1]);
    let mut empty = Sudoku::from(vec![0usize; 16]);
    assert!(empty.solve());
    assert_eq!(empty.get_board(), vec![1, 2, 3, 4, 3, 4, 1, 2, 2, 1, 4, 3, 4, 3, 2, 1]);
}

#[test]
fn a_value_twice_in_one_row_can_make_the_grid_unsolvable() {
    let before: Vec<usize> = vec![1, 1, 0, 0, 0, 0, 0, 0, 0, 0, 0, 0, 0, 0, 0, 0];
    let mut game = Sudoku::from(before.clone());
    assert!(!game.solve());
    assert_eq!(game.get_board(), before);
    assert_eq!(game.size(), 4);
}

#[test]
fn a_value_twice_in_one_column_can_make_the_grid_unsolvable() {
    let mut before = puzzle_solved();
    before[80] = 0;
    before[79] = 6;
    let mut game = Sudoku::from(before.clone());
    assert!(!game.solve());
    assert_eq!(game.get_board(), before);
}

#[test]
fn a_puzzle_without_solution_is_left_as_it_was() {
    let mut before = puzzle();
    before[2] = 6;
    before[3] = 7;
    let mut game = Sudoku::from(before.clone());
    assert!(!game.solve());
    assert_eq!(game.get_board(), before);
}

#[test]
fn a_repeated_clue_does_not_always_stop_the_search() {
    let mut before = puzzle_solved();
    before[80] = 0;
    before[79] = 8;
    let mut game = Sudoku::from(before.clone());
    assert!(game.solve());
    let after = game.get_board();
    assert!(keeps_clues(&before, &after));
    assert_eq!(after[80], 6);
    assert!(!is_solved(&after, 9, 3));
}

#[test]
fn a_full_grid_is_accepted_whatever_it_holds() {
    let mut cells = puzzle_solved();
    cells[0] = 2;
    let mut game = Sudoku::from(cells.clone());
    assert!(game.solve());
    assert_eq!(game.get_board(), cells);
}

#[test]
fn a_grid_without_cells_is_solved_at_once() {
    let mut game = Sudoku::from(Vec::new());
    assert!(game.solve());
    assert_eq!(game.get_board(), Vec::<usize>::new());
}

#[test]
fn a_grid_of_one_cell_gets_a_one() {
    let mut game = Sudoku::from(vec![0]);
    assert!(game.solve());
    assert_eq!(game.get_board(), vec![1]);
}

#[test]
fn a_grid_of_side_two_has_boxes_of_one_cell() {
    let mut game = Sudoku::from(vec![0usize; 4]);
    assert!(game.solve());
    assert_eq!(game.get_board(), vec![1, 2, 2, 1]);
}

#[test]
fn cells_past_the_square_count_in_their_column() {
    let mut blocked = vec![0usize; 10];
    blocked[9] = 1;
    let mut game = Sudoku::from(blocked.clone());
    assert_eq!(game.size(), 3);
    assert!(!game.solve());
    assert_eq!(game.get_board(), blocked);
    let mut free = vec![0usize; 10];
    free[9] = 4;
    let mut game = Sudoku::from(free);
    assert!(game.solve());
    assert_eq!(game.get_board(), vec![1, 2, 3, 2, 3, 1, 3, 1, 2, 4]);
}

#[test]
fn solves_a_grid_whose_side_is_no_square() {
    let mut game = Sudoku::from(vec![0usize; 25]);
    assert!(game.solve());
    assert_eq!(
        game.get_board(),
        vec![1, 2, 3, 4, 5, 3, 4, 1, 5, 2, 2, 1, 5, 3, 4, 4, 5, 2, 1, 3, 5, 3, 4, 2, 1]
    );
}

#[test]
fn solves_the_empty_grid_of_side_sixteen() {
    let mut game = Sudoku::from(vec![0usize; 256]);
    assert!(game.solve());
    assert!(is_solved(&game.get_board(), 16, 4));
}

#[test]
fn set_board_after_solving_starts_afresh() {
    let mut game = Sudoku::new();
    assert!(game.solve());
    game.set_board(puzzle());
    assert_eq!(game.get_board(), puzzle());
    assert!(game.solve());
    assert_eq!(game.get_board(), puzzle_solved());
}
