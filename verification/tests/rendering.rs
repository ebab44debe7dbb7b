use rustoku::Sudoku;

#[test]
fn render_writes_rows_with_underscores_for_empty_cells() {
    let game = Sudoku::from(vec![
        4, 2, 0, 0, 5, 0, 0, 0, 8, 8, 0, 3, 0, 0, 0, 0, 0, 0, 0, 1, 0, 0, 0, 9, 0, 0, 0, 0, 7, 0,
        0, 8, 0, 6, 0, 0, 0, 0, 0, 5, 2, 6, 0, 0, 0, 0, 0, 5, 0, 3, 0, 0, 9, 0, 0, 0, 0, 2, 0, 0,
        0, 7, 0, 0, 0, 0, 0, 0, 0, 5, 0, 3, 9, 0, 0, 0, 4, 0, 0, 2, 6,
    ]);
    let expected = "4 2 _ _ 5 _ _ _ 8 \n8 _ 3 _ _ _ _ _ _ \n_ 1 _ _ _ 9 _ _ _ \n\
                    _ 7 _ _ 8 _ 6 _ _ \n_ _ _ 5 2 6 _ _ _ \n_ _ 5 _ 3 _ _ 9 _ \n\
                    _ _ _ 2 _ _ _ 7 _ \n_ _ _ _ _ _ 5 _ 3 \n9 _ _ _ 4 _ _ 2 6 \n";
    assert_eq!(game.render(), expected);
}

#[test]
fn render_of_the_new_grid() {
    let game = Sudoku::new();
    let row = "_ _ _ _ _ _ _ _ _ \n";
    assert_eq!(game.render(), row.repeat(9));
}

#[test]
fn render_writes_values_in_decimal() {
    let mut cells = vec![0usize; 256];
    cells[1] = 10;
    cells[2] = 3;
    cells[3] = 16;
    cells[16] = 109;
    cells[17] = 1200;
    let text = Sudoku::from(cells).render();
    let lines: Vec<&str> = text.split('\n').collect();
    assert_eq!(lines.len(), 17);
    assert_eq!(lines[0], "_ 10 3 16 _ _ _ _ _ _ _ _ _ _ _ _ ");
    assert_eq!(lines[1], "109 1200 _ _ _ _ _ _ _ _ _ _ _ _ _ _ ");
    assert_eq!(lines[2], "_ _ _ _ _ _ _ _ _ _ _ _ _ _ _ _ ");
    assert_eq!(lines[16], "");
}

#[test]
fn render_of_the_largest_value() {
    let text = Sudoku::from(vec![usize::MAX]).render();
    assert_eq!(text, format!("{} \n", usize::MAX));
}

#[test]
fn render_leaves_out_the_cells_past_the_square() {
    let game = Sudoku::from(vec![1, 2, 3, 4, 5]);
    assert_eq!(game.render(), "1 2 \n3 4 \n");
}

#[test]
fn render_of_a_grid_without_cells_is_empty() {
    assert_eq!(Sudoku::from(Vec::new()).render(), "");
}
